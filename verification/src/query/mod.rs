//! The query surface: the similarity query language, the similarity
//! operators, and the planner.

pub mod operators;
pub mod planner;

use vstd::prelude::*;
use vstd::arithmetic::div_mod::lemma_fundamental_div_mod;
use crate::semantic::{char_is_whitespace, chars_of, is_space_char, string_from_chars};

verus! {

/// Nothing but whitespace.
pub open spec fn all_ws(s: Seq<char>) -> bool {
    forall|i: int| 0 <= i < s.len() ==> is_space_char(#[trigger] s[i])
}

/// An identifier character: a letter, a digit or an underscore.
pub open spec fn is_word_char(c: char) -> bool {
    (97 <= c as u32 <= 122) || (65 <= c as u32 <= 90) || (48 <= c as u32 <= 57) || c == '_'
}

pub open spec fn all_word(s: Seq<char>) -> bool {
    forall|i: int| 0 <= i < s.len() ==> is_word_char(#[trigger] s[i])
}

pub open spec fn is_digit_char(c: char) -> bool {
    48 <= c as u32 <= 57
}

pub open spec fn all_digits(s: Seq<char>) -> bool {
    forall|i: int| 0 <= i < s.len() ==> is_digit_char(#[trigger] s[i])
}

/// The number a digit string denotes.
pub open spec fn digits_val(s: Seq<char>) -> int
    decreases s.len(),
{
    if s.len() == 0 {
        0
    } else {
        digits_val(s.drop_last()) * 10 + (s.last() as u32 - 48)
    }
}

/// What may follow the space name: either only whitespace, or a `TOP`
/// clause with a digit count, then only whitespace.
#[verifier::opaque]
pub open spec fn ql_tail_shape(tail: Seq<char>, top: Option<Seq<char>>) -> bool {
    match top {
        None => all_ws(tail),
        Some(d) => exists|g5: Seq<char>, g6: Seq<char>, w7: Seq<char>|
            #![trigger all_ws(g5), all_ws(g6), all_ws(w7)]
            {
                &&& tail == g5 + "TOP"@ + g6 + d + w7
                &&& all_ws(g5) && g5.len() > 0
                &&& all_ws(g6) && g6.len() > 0
                &&& all_digits(d) && d.len() > 0
                &&& all_ws(w7)
            },
    }
}

/// The query grammar: `FIND SIMILAR "<query>" IN <space> [TOP <n>]`, with
/// whitespace between keywords, a non-empty quote-free query, a non-empty
/// identifier space name, and an optional count clause.
#[verifier::opaque]
pub open spec fn ql_shape(
    input: Seq<char>,
    query: Seq<char>,
    space: Seq<char>,
    top: Option<Seq<char>>,
) -> bool {
    exists|
        w0: Seq<char>,
        g1: Seq<char>,
        g2: Seq<char>,
        g3: Seq<char>,
        g4: Seq<char>,
        tail: Seq<char>,
    |
        #![trigger all_ws(w0), all_ws(g1), all_ws(g2), all_ws(g3), all_ws(g4), ql_tail_shape(tail, top)]
        {
            &&& input == w0 + "FIND"@ + g1 + "SIMILAR"@ + g2 + seq!['"'] + query + seq!['"'] + g3
                + "IN"@ + g4 + space + tail
            &&& all_ws(w0)
            &&& all_ws(g1) && g1.len() > 0
            &&& all_ws(g2) && g2.len() > 0
            &&& all_ws(g3) && g3.len() > 0
            &&& all_ws(g4) && g4.len() > 0
            &&& query.len() > 0 && (forall|i: int| 0 <= i < query.len() ==> query[i] != '"')
            &&& space.len() > 0 && all_word(space)
            &&& ql_tail_shape(tail, top)
        }
}

/// A parsed similarity query: what to search for, in which space, and
/// how many results (10 when no count clause is given, or when the count
/// does not fit the machine word).
pub struct SemanticQl {
    pub query: String,
    pub space: String,
    pub k: usize,
}

/// The parse contract: the input has the grammar's shape, with the query
/// and space taken verbatim from it, and the count read from the `TOP`
/// clause — 10 when the clause is absent or its number does not fit.
pub open spec fn parse_ok(input: Seq<char>, q: SemanticQl) -> bool {
    exists|top: Option<Seq<char>>|
        #![trigger ql_shape(input, q.query@, q.space@, top)]
        ql_shape(input, q.query@, q.space@, top) && (match top {
            None => q.k == 10,
            Some(d) => (digits_val(d) <= usize::MAX ==> q.k == digits_val(d)) && (digits_val(d)
                > usize::MAX ==> q.k == 10),
        })
}

fn is_word_at(cs: &Vec<char>, i: usize) -> (b: bool)
    requires
        i < cs@.len(),
    ensures
        b == is_word_char(cs@[i as int]),
{
    let c = cs[i] as u32;
    (97 <= c && c <= 122) || (65 <= c && c <= 90) || (48 <= c && c <= 57) || cs[i] == '_'
}

fn is_digit_at(cs: &Vec<char>, i: usize) -> (b: bool)
    requires
        i < cs@.len(),
    ensures
        b == is_digit_char(cs@[i as int]),
{
    let c = cs[i] as u32;
    48 <= c && c <= 57
}

fn skip_ws(cs: &Vec<char>, p: usize) -> (r: usize)
    requires
        p <= cs@.len(),
    ensures
        p <= r <= cs@.len(),
        all_ws(cs@.subrange(p as int, r as int)),
        r < cs@.len() ==> !is_space_char(cs@[r as int]),
{
    let n = cs.len();
    let mut r = p;
    while r < n && char_is_whitespace(cs[r])
        invariant
            p <= r <= n,
            n == cs@.len(),
            forall|i: int| p <= i < r ==> is_space_char(#[trigger] cs@[i]),
        decreases n - r,
    {
        r = r + 1;
    }
    proof {
        assert forall|i: int| 0 <= i < r - p implies is_space_char(
            #[trigger] cs@.subrange(p as int, r as int)[i],
        ) by {
            assert(cs@.subrange(p as int, r as int)[i] == cs@[p + i]);
        }
    }
    r
}

fn match_at(cs: &Vec<char>, p: usize, lit: &Vec<char>) -> (b: bool)
    requires
        p <= cs@.len(),
    ensures
        b ==> p + lit@.len() <= cs@.len() && cs@.subrange(p as int, p as int + lit@.len() as int)
            == lit@,
{
    let m = lit.len();
    if cs.len() - p < m {
        return false;
    }
    let mut i: usize = 0;
    while i < m
        invariant
            i <= m,
            m == lit@.len(),
            p + m <= cs@.len(),
            cs@.len() <= usize::MAX,
            forall|j: int| 0 <= j < i ==> cs@[p + j] == lit@[j],
        decreases m - i,
    {
        proof {
            assert(p + i < cs@.len());
        }
        let idx = p + i;
        if cs[idx] != lit[i] {
            return false;
        }
        i = i + 1;
    }
    proof {
        assert(cs@.subrange(p as int, p as int + m as int) =~= lit@);
    }
    true
}

proof fn lemma_digits_val_nonneg(s: Seq<char>)
    requires
        all_digits(s),
    ensures
        digits_val(s) >= 0,
    decreases s.len(),
{
    if s.len() > 0 {
        assert(all_digits(s.drop_last()));
        lemma_digits_val_nonneg(s.drop_last());
    }
}


/// Assemble the grammar shape from the scanner's segment facts.
#[verifier::spinoff_prover]
#[verifier::rlimit(100)]
proof fn lemma_ql_shape_build(
    cs: Seq<char>,
    p0: int,
    p2: int,
    p4: int,
    q_end: int,
    p6: int,
    p8: int,
    s_end: int,
    p9: int,
    d_start: int,
    d_end: int,
    has_top: bool,
    top: Option<Seq<char>>,
)
    requires
        0 <= p0,
        p0 + 4 < p2,
        p2 + 7 < p4,
        p4 + 1 < q_end,
        q_end + 1 < p6,
        p6 + 2 < p8,
        p8 < s_end <= cs.len(),
        cs.subrange(p0, p0 + 4) == "FIND"@,
        cs.subrange(p2, p2 + 7) == "SIMILAR"@,
        cs.subrange(p6, p6 + 2) == "IN"@,
        all_ws(cs.subrange(0, p0)),
        all_ws(cs.subrange(p0 + 4, p2)),
        all_ws(cs.subrange(p2 + 7, p4)),
        cs[p4] == '"',
        forall|i: int| p4 + 1 <= i < q_end ==> cs[i] != '"',
        cs[q_end] == '"',
        all_ws(cs.subrange(q_end + 1, p6)),
        all_ws(cs.subrange(p6 + 2, p8)),
        forall|i: int| p8 <= i < s_end ==> is_word_char(#[trigger] cs[i]),
        !has_top ==> top is None && all_ws(cs.subrange(s_end, cs.len() as int)),
        has_top ==> {
            &&& s_end < p9
            &&& p9 + 3 < d_start
            &&& d_start < d_end <= cs.len()
            &&& cs.subrange(p9, p9 + 3) == "TOP"@
            &&& all_ws(cs.subrange(s_end, p9))
            &&& all_ws(cs.subrange(p9 + 3, d_start))
            &&& forall|i: int| d_start <= i < d_end ==> is_digit_char(#[trigger] cs[i])
            &&& all_ws(cs.subrange(d_end, cs.len() as int))
            &&& top == Some(cs.subrange(d_start, d_end))
        },
    ensures
        ql_shape(cs, cs.subrange(p4 + 1, q_end), cs.subrange(p8, s_end), top),
{
    reveal(ql_shape);
    reveal(ql_tail_shape);
    reveal_strlit("FIND");
    reveal_strlit("SIMILAR");
    reveal_strlit("IN");
    reveal_strlit("TOP");
    let n = cs.len() as int;
    let w0 = cs.subrange(0, p0);
    let g1 = cs.subrange(p0 + 4, p2);
    let g2 = cs.subrange(p2 + 7, p4);
    let qseq = cs.subrange(p4 + 1, q_end);
    let g3 = cs.subrange(q_end + 1, p6);
    let g4 = cs.subrange(p6 + 2, p8);
    let sseq = cs.subrange(p8, s_end);
    let tail = cs.subrange(s_end, n);
    assert(cs.subrange(p4, p4 + 1) =~= seq!['"']);
    assert(cs.subrange(q_end, q_end + 1) =~= seq!['"']);
    assert(cs =~= w0 + "FIND"@ + g1 + "SIMILAR"@ + g2 + seq!['"'] + qseq + seq!['"'] + g3 + "IN"@
        + g4 + sseq + tail);
    assert(all_word(sseq)) by {
        assert forall|i: int| 0 <= i < sseq.len() implies is_word_char(#[trigger] sseq[i]) by {
            assert(sseq[i] == cs[p8 + i]);
        }
    }
    assert(all_ws(w0));
    assert(all_ws(g1));
    assert(all_ws(g2));
    assert(all_ws(g3));
    assert(all_ws(g4));
    if has_top {
        let g5 = cs.subrange(s_end, p9);
        let g6 = cs.subrange(p9 + 3, d_start);
        let d = cs.subrange(d_start, d_end);
        let w7 = cs.subrange(d_end, n);
        assert(tail =~= g5 + "TOP"@ + g6 + d + w7);
        assert(all_digits(d)) by {
            assert forall|i: int| 0 <= i < d.len() implies is_digit_char(#[trigger] d[i]) by {
                assert(d[i] == cs[d_start + i]);
            }
        }
        assert(all_ws(g5));
        assert(g5.len() > 0);
        assert(all_ws(g6));
        assert(g6.len() > 0);
        assert(d.len() > 0);
        assert(all_ws(w7));
        assert(top == Some(d));
        assert(tail == g5 + "TOP"@ + g6 + d + w7);
        assert(ql_tail_shape(tail, top));
    } else {
        assert(ql_tail_shape(tail, top));
    }
    assert(ql_shape(cs, qseq, sseq, top));
}

impl SemanticQl {
    /// Parse `FIND SIMILAR "<query>" IN <space> [TOP <n>]`. On success the
    /// input provably has that shape, with the returned query and space
    /// taken verbatim from it and the count read from the `TOP` clause
    /// (10 when the clause is absent or its number overflows).
    #[verifier::rlimit(100)]
    #[verifier::spinoff_prover]
    pub fn parse(input: &str) -> (r: Option<SemanticQl>)
        ensures
            match r {
                Some(q) => parse_ok(input@, q),
                None => true,
            },
    {
        proof {
            reveal_strlit("FIND");
            reveal_strlit("SIMILAR");
            reveal_strlit("IN");
            reveal_strlit("TOP");
        }
        let cs = chars_of(input);
        let n = cs.len();
        let lit_find = chars_of("FIND");
        let lit_similar = chars_of("SIMILAR");
        let lit_in = chars_of("IN");
        let lit_top = chars_of("TOP");
        let p0 = skip_ws(&cs, 0);
        if !match_at(&cs, p0, &lit_find) {
            return None;
        }
        let p1 = p0 + 4;
        let p2 = skip_ws(&cs, p1);
        if p2 == p1 {
            return None;
        }
        if !match_at(&cs, p2, &lit_similar) {
            return None;
        }
        let p3 = p2 + 7;
        let p4 = skip_ws(&cs, p3);
        if p4 == p3 {
            return None;
        }
        if p4 >= n || cs[p4] != '"' {
            return None;
        }
        let q_start = p4 + 1;
        let mut q_end = q_start;
        while q_end < n && cs[q_end] != '"'
            invariant
                q_start <= q_end <= n,
                n == cs@.len(),
                forall|i: int| q_start <= i < q_end ==> cs@[i] != '"',
            decreases n - q_end,
        {
            q_end = q_end + 1;
        }
        if q_end >= n || q_end == q_start {
            return None;
        }
        let p5 = q_end + 1;
        let p6 = skip_ws(&cs, p5);
        if p6 == p5 {
            return None;
        }
        if !match_at(&cs, p6, &lit_in) {
            return None;
        }
        let p7 = p6 + 2;
        let p8 = skip_ws(&cs, p7);
        if p8 == p7 {
            return None;
        }
        let mut s_end = p8;
        while s_end < n && is_word_at(&cs, s_end)
            invariant
                p8 <= s_end <= n,
                n == cs@.len(),
                forall|i: int| p8 <= i < s_end ==> is_word_char(#[trigger] cs@[i]),
            decreases n - s_end,
        {
            s_end = s_end + 1;
        }
        if s_end == p8 {
            return None;
        }
        // the optional TOP clause, then only trailing whitespace
        let p9 = skip_ws(&cs, s_end);
        let mut k: usize = 10;
        let ghost mut top: Option<Seq<char>> = None::<Seq<char>>;
        let mut d_start: usize = 0;
        let mut d_end: usize = 0;
        let mut has_top = false;
        if p9 == n {
            // no TOP clause
        } else {
            if p9 == s_end {
                return None;
            }
            if !match_at(&cs, p9, &lit_top) {
                return None;
            }
            let pa = p9 + 3;
            let pb = skip_ws(&cs, pa);
            if pb == pa {
                return None;
            }
            d_start = pb;
            let mut de = pb;
            while de < n && is_digit_at(&cs, de)
                invariant
                    pb <= de <= n,
                    n == cs@.len(),
                    forall|i: int| pb <= i < de ==> is_digit_char(#[trigger] cs@[i]),
                decreases n - de,
            {
                de = de + 1;
            }
            if de == pb {
                return None;
            }
            d_end = de;
            let pc = skip_ws(&cs, d_end);
            if pc != n {
                return None;
            }
            has_top = true;
            k = parse_count(&cs, d_start, d_end);
            proof {
                top = Some(cs@.subrange(d_start as int, d_end as int));
            }
        }
        // build the result and justify the shape
        let mut query_chars: Vec<char> = Vec::new();
        let mut t = q_start;
        while t < q_end
            invariant
                q_start <= t <= q_end <= n,
                n == cs@.len(),
                query_chars@ == cs@.subrange(q_start as int, t as int),
            decreases q_end - t,
        {
            query_chars.push(cs[t]);
            t = t + 1;
            proof {
                assert(query_chars@ =~= cs@.subrange(q_start as int, t as int));
            }
        }
        let mut space_chars: Vec<char> = Vec::new();
        let mut t2 = p8;
        while t2 < s_end
            invariant
                p8 <= t2 <= s_end <= n,
                n == cs@.len(),
                space_chars@ == cs@.subrange(p8 as int, t2 as int),
            decreases s_end - t2,
        {
            space_chars.push(cs[t2]);
            t2 = t2 + 1;
            proof {
                assert(space_chars@ =~= cs@.subrange(p8 as int, t2 as int));
            }
        }
        let query = string_from_chars(&query_chars);
        let space = string_from_chars(&space_chars);
        proof {
            if !has_top {
                assert(all_ws(cs@.subrange(s_end as int, cs@.len() as int)));
            } else {
                assert(all_ws(cs@.subrange(d_end as int, cs@.len() as int)));
            }
            lemma_ql_shape_build(
                cs@,
                p0 as int,
                p2 as int,
                p4 as int,
                q_end as int,
                p6 as int,
                p8 as int,
                s_end as int,
                p9 as int,
                d_start as int,
                d_end as int,
                has_top,
                top,
            );
            assert(ql_shape(input@, query@, space@, top));
        }
        let result = SemanticQl { query, space, k };
        proof {
            assert(ql_shape(input@, result.query@, result.space@, top) && (match top {
                None => result.k == 10,
                Some(d) => (digits_val(d) <= usize::MAX ==> result.k == digits_val(d)) && (
                digits_val(d) > usize::MAX ==> result.k == 10),
            }));
            assert(parse_ok(input@, result));
        }
        Some(result)
    }
}

/// Read the decimal count, falling back to 10 when it does not fit.
fn parse_count(cs: &Vec<char>, start: usize, end: usize) -> (k: usize)
    requires
        start < end <= cs@.len(),
        all_digits(cs@.subrange(start as int, end as int)),
    ensures
        digits_val(cs@.subrange(start as int, end as int)) <= usize::MAX ==> k == digits_val(
            cs@.subrange(start as int, end as int),
        ),
        digits_val(cs@.subrange(start as int, end as int)) > usize::MAX ==> k == 10,
{
    let ghost whole = cs@.subrange(start as int, end as int);
    let mut acc: usize = 0;
    let mut over = false;
    let mut t = start;
    while t < end
        invariant
            start <= t <= end <= cs@.len(),
            whole == cs@.subrange(start as int, end as int),
            all_digits(whole),
            !over ==> acc == digits_val(cs@.subrange(start as int, t as int)),
            over ==> digits_val(cs@.subrange(start as int, t as int)) > usize::MAX,
        decreases end - t,
    {
        let ghost pre = cs@.subrange(start as int, t as int);
        proof {
            assert(whole[t - start as int] == cs@[t as int]);
            assert(is_digit_char(cs@[t as int]));
        }
        let c = cs[t] as u32;
        let d = (c - 48) as usize;
        proof {
            assert(cs@.subrange(start as int, t as int + 1).drop_last() =~= pre);
            assert(cs@.subrange(start as int, t as int + 1).last() == cs@[t as int]);
            assert(all_digits(pre)) by {
                assert forall|i: int| 0 <= i < pre.len() implies is_digit_char(
                    #[trigger] pre[i],
                ) by {
                    assert(pre[i] == whole[i]);
                }
            }
            lemma_digits_val_nonneg(pre);
        }
        if over {
            proof {
                assert(digits_val(cs@.subrange(start as int, t as int + 1)) == digits_val(pre) * 10
                    + d);
                assert(digits_val(pre) * 10 + d > usize::MAX) by (nonlinear_arith)
                    requires
                        digits_val(pre) > usize::MAX,
                        d >= 0,
                ;
            }
        } else if acc > (usize::MAX - d) / 10 {
            proof {
                lemma_fundamental_div_mod((usize::MAX - d) as int, 10);
                assert(acc * 10 + d > usize::MAX) by (nonlinear_arith)
                    requires
                        acc > ((usize::MAX - d) / 10) as int,
                        usize::MAX - d == 10 * (((usize::MAX - d) / 10) as int) + (((usize::MAX
                            - d) as int) % 10),
                        0 <= ((usize::MAX - d) as int) % 10 < 10,
                ;
                assert(digits_val(cs@.subrange(start as int, t as int + 1)) == acc * 10 + d);
            }
            over = true;
        } else {
            proof {
                assert(acc * 10 + d <= usize::MAX) by (nonlinear_arith)
                    requires
                        0 <= acc <= ((usize::MAX - d) / 10) as int,
                        0 <= d <= 9,
                        usize::MAX - d == 10 * (((usize::MAX - d) / 10) as int) + (((usize::MAX
                            - d) as int) % 10),
                        0 <= ((usize::MAX - d) as int) % 10 < 10,
                ;
                lemma_fundamental_div_mod((usize::MAX - d) as int, 10);
                assert(acc * 10 + d <= usize::MAX) by (nonlinear_arith)
                    requires
                        0 <= acc <= ((usize::MAX - d) / 10) as int,
                        0 <= d <= 9,
                        usize::MAX - d == 10 * (((usize::MAX - d) / 10) as int) + (((usize::MAX
                            - d) as int) % 10),
                        0 <= ((usize::MAX - d) as int) % 10 < 10,
                ;
            }
            acc = acc * 10 + d;
        }
        t = t + 1;
    }
    proof {
        assert(cs@.subrange(start as int, end as int) =~= whole);
    }
    if over {
        10
    } else {
        acc
    }
}

} // verus!

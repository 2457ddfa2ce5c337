//! The page-range parser: translates a textual selection into a validated,
//! sorted, deduplicated list of entry point indices.
//!
//! A selection is a comma-separated list of tokens; a token is a bare
//! positive integer `n`, a range `a-b` meaning every index in `[a, b]`, or
//! an open range `a-` meaning `[a, total]`. Whitespace around tokens and
//! around the dash is ignored, and empty tokens from stray commas are
//! skipped. The output is the sorted union of the token expansions,
//! regardless of input order.
use vstd::prelude::*;

verus! {

/// A decimal digit byte.
pub open spec fn is_digit(c: u8) -> bool {
    48 <= c <= 57
}

/// An ASCII whitespace byte.
pub open spec fn is_space(c: u8) -> bool {
    c == 32 || c == 9 || c == 10 || c == 13 || c == 11 || c == 12
}

/// The position of the first comma, scanning from the front.
pub open spec fn first_comma(s: Seq<u8>) -> int
    decreases s.len(),
{
    if s.len() == 0 {
        0
    } else if s[0] == 44 {
        0
    } else {
        1 + first_comma(s.drop_first())
    }
}

/// The comma-separated tokens of a selection, in order.
pub open spec fn tokens(s: Seq<u8>) -> Seq<Seq<u8>>
    decreases s.len(),
{
    if exists|i: int| 0 <= i < s.len() && s[i] == 44 {
        let i = first_comma(s);
        if 0 <= i < s.len() {
            seq![s.take(i)] + tokens(s.skip(i + 1))
        } else {
            seq![s]
        }
    } else {
        seq![s]
    }
}

/// `s` with leading whitespace dropped.
pub open spec fn trim_start(s: Seq<u8>) -> Seq<u8>
    decreases s.len(),
{
    if s.len() > 0 && is_space(s[0]) {
        trim_start(s.drop_first())
    } else {
        s
    }
}

/// `s` with trailing whitespace dropped.
pub open spec fn trim_end(s: Seq<u8>) -> Seq<u8>
    decreases s.len(),
{
    if s.len() > 0 && is_space(s.last()) {
        trim_end(s.drop_last())
    } else {
        s
    }
}

/// `s` with surrounding whitespace dropped.
pub open spec fn trim(s: Seq<u8>) -> Seq<u8> {
    trim_end(trim_start(s))
}

/// Every byte is a digit.
pub open spec fn all_digits(s: Seq<u8>) -> bool {
    forall|i: int| 0 <= i < s.len() ==> is_digit(#[trigger] s[i])
}

/// The decimal value of a digit string.
pub open spec fn num_val(s: Seq<u8>) -> int
    decreases s.len(),
{
    if s.len() == 0 {
        0
    } else {
        num_val(s.drop_last()) * 10 + (s.last() - 48)
    }
}

/// A parseable count: a nonempty digit string whose value fits the machine.
pub open spec fn parseable(s: Seq<u8>) -> bool {
    s.len() > 0 && all_digits(s) && num_val(s) <= usize::MAX
}

/// The number of dashes in `s`.
pub open spec fn dash_count(s: Seq<u8>) -> int
    decreases s.len(),
{
    if s.len() == 0 {
        0
    } else {
        dash_count(s.drop_last()) + if s.last() == 45 {
            1int
        } else {
            0int
        }
    }
}

/// The position of the first dash, scanning from the front.
pub open spec fn dash_pos(s: Seq<u8>) -> int
    decreases s.len(),
{
    if s.len() == 0 {
        0
    } else if s[0] == 45 {
        0
    } else {
        1 + dash_pos(s.drop_first())
    }
}

/// What is wrong with a trimmed token, if anything, in the order the
/// checks are made: syntax first, then magnitude.
pub enum TokenDiag {
    Fine,
    BadNumber,
    BadSyntax,
    EmptyStart,
    ZeroPage,
    StartBeyond,
    EndBeyond,
    Backwards,
}

/// The diagnosis of a trimmed token against the page count `total`.
pub open spec fn token_diag(w: Seq<u8>, total: int) -> TokenDiag {
    if w.len() == 0 {
        TokenDiag::Fine
    } else if dash_count(w) == 0 {
        if !parseable(w) {
            TokenDiag::BadNumber
        } else if num_val(w) < 1 || num_val(w) > total {
            TokenDiag::ZeroPage
        } else {
            TokenDiag::Fine
        }
    } else if dash_count(w) != 1 {
        TokenDiag::BadSyntax
    } else {
        let a = trim(w.take(dash_pos(w)));
        let b = trim(w.skip(dash_pos(w) + 1));
        if a.len() == 0 {
            TokenDiag::EmptyStart
        } else if !parseable(a) {
            TokenDiag::BadNumber
        } else if b.len() > 0 && !parseable(b) {
            TokenDiag::BadNumber
        } else if num_val(a) < 1 {
            TokenDiag::ZeroPage
        } else if num_val(a) > total {
            TokenDiag::StartBeyond
        } else if b.len() > 0 && num_val(b) > total {
            TokenDiag::EndBeyond
        } else if b.len() > 0 && num_val(a) > num_val(b) {
            TokenDiag::Backwards
        } else {
            TokenDiag::Fine
        }
    }
}

/// A trimmed token that passes every check.
pub open spec fn token_valid(w: Seq<u8>, total: int) -> bool {
    token_diag(w, total) is Fine
}

/// The trimmed token selects page `p`.
pub open spec fn token_covers(w: Seq<u8>, total: int, p: int) -> bool {
    &&& token_valid(w, total)
    &&& w.len() > 0
    &&& if dash_count(w) == 0 {
        p == num_val(w)
    } else {
        let a = trim(w.take(dash_pos(w)));
        let b = trim(w.skip(dash_pos(w) + 1));
        num_val(a) <= p <= if b.len() == 0 {
            total
        } else {
            num_val(b)
        }
    }
}

/// How a selection is rejected: the offending input is echoed back.
#[derive(Debug)]
pub enum RangeError {
    /// The document has no pages at all.
    NoPages,
    /// A token holds something other than a parseable number.
    InvalidNumber { token: Vec<u8> },
    /// A token holds more than one dash.
    InvalidRangeSyntax { token: Vec<u8> },
    /// A range token starts with its dash.
    EmptyRangeStart { token: Vec<u8> },
    /// A page number below one, or a bare page past the document end.
    PageOutOfRange { token: Vec<u8>, total: usize },
    /// A range starts past the document end.
    StartBeyondEnd { start: usize, total: usize },
    /// A range ends past the document end.
    EndBeyondEnd { end: usize, total: usize },
    /// A range runs backwards: its start is after its end.
    BackwardsRange { token: Vec<u8> },
}

/// Whether the error `e` is the right report for the trimmed token `w`.
pub open spec fn err_matches(w: Seq<u8>, total: int, e: RangeError) -> bool {
    match e {
        RangeError::NoPages => false,
        RangeError::InvalidNumber { token } => token@ == w
            && token_diag(w, total) is BadNumber,
        RangeError::InvalidRangeSyntax { token } => token@ == w
            && token_diag(w, total) is BadSyntax,
        RangeError::EmptyRangeStart { token } => token@ == w
            && token_diag(w, total) is EmptyStart,
        RangeError::PageOutOfRange { token, total: t } => token@ == w && t == total
            && token_diag(w, total) is ZeroPage,
        RangeError::StartBeyondEnd { start, total: t } => t == total
            && token_diag(w, total) is StartBeyond
            && start == num_val(trim(w.take(dash_pos(w)))),
        RangeError::EndBeyondEnd { end, total: t } => t == total
            && token_diag(w, total) is EndBeyond
            && end == num_val(trim(w.skip(dash_pos(w) + 1))),
        RangeError::BackwardsRange { token } => token@ == w
            && token_diag(w, total) is Backwards,
    }
}

} // verus!

verus! {

/// `first_comma` finds the position of the first comma.
proof fn lemma_first_comma_at(s: Seq<u8>, d: int)
    requires
        0 <= d < s.len(),
        s[d] == 44,
        forall|j: int| 0 <= j < d ==> s[j] != 44,
    ensures
        first_comma(s) == d,
    decreases d,
{
    if d > 0 {
        lemma_first_comma_at(s.drop_first(), d - 1);
    }
}

/// A comma at `d` with none before it splits the token list there.
proof fn lemma_tokens_split(s: Seq<u8>, d: int)
    requires
        0 <= d < s.len(),
        s[d] == 44,
        forall|j: int| 0 <= j < d ==> s[j] != 44,
    ensures
        tokens(s) == seq![s.take(d)] + tokens(s.skip(d + 1)),
{
    lemma_first_comma_at(s, d);
}

/// With no comma anywhere the whole string is the single token.
proof fn lemma_tokens_whole(s: Seq<u8>)
    requires
        forall|j: int| 0 <= j < s.len() ==> s[j] != 44,
    ensures
        tokens(s) == seq![s],
{
}

/// Dropping exactly the leading whitespace is what `trim_start` does.
proof fn lemma_trim_start_at(s: Seq<u8>, a: int)
    requires
        0 <= a <= s.len(),
        forall|i: int| 0 <= i < a ==> is_space(#[trigger] s[i]),
        a < s.len() ==> !is_space(s[a]),
    ensures
        trim_start(s) == s.skip(a),
    decreases a,
{
    if a == 0 {
        assert(s.skip(0) =~= s);
    } else {
        lemma_trim_start_at(s.drop_first(), a - 1);
        assert(s.drop_first().skip(a - 1) =~= s.skip(a));
    }
}

/// Dropping exactly the trailing whitespace is what `trim_end` does.
proof fn lemma_trim_end_at(s: Seq<u8>, b: int)
    requires
        0 <= b <= s.len(),
        forall|i: int| b <= i < s.len() ==> is_space(#[trigger] s[i]),
        b > 0 ==> !is_space(s[b - 1]),
    ensures
        trim_end(s) == s.take(b),
    decreases s.len(),
{
    if b == s.len() {
        assert(s.take(b) =~= s);
    } else {
        lemma_trim_end_at(s.drop_last(), b);
        assert(s.drop_last().take(b) =~= s.take(b));
    }
}

/// A digit string has a nonnegative value.
proof fn lemma_num_nonneg(s: Seq<u8>)
    requires
        all_digits(s),
    ensures
        num_val(s) >= 0,
    decreases s.len(),
{
    if s.len() > 0 {
        assert(all_digits(s.drop_last()));
        lemma_num_nonneg(s.drop_last());
    }
}

/// A prefix of a digit string never exceeds the whole string's value.
proof fn lemma_num_prefix_le(s: Seq<u8>, k: int)
    requires
        all_digits(s),
        0 <= k <= s.len(),
    ensures
        num_val(s.take(k)) <= num_val(s),
    decreases s.len() - k,
{
    if k == s.len() {
        assert(s.take(k) =~= s);
    } else {
        assert(s.take(k + 1).drop_last() =~= s.take(k));
        assert(all_digits(s.take(k + 1)));
        lemma_num_nonneg(s.take(k));
        assert(num_val(s.take(k + 1)) == num_val(s.take(k)) * 10 + (s[k] - 48));
        lemma_num_prefix_le(s, k + 1);
    }
}

/// `dash_pos` finds the position of the first dash.
proof fn lemma_dash_pos_at(s: Seq<u8>, d: int)
    requires
        0 <= d < s.len(),
        s[d] == 45,
        forall|j: int| 0 <= j < d ==> s[j] != 45,
    ensures
        dash_pos(s) == d,
    decreases d,
{
    if d > 0 {
        lemma_dash_pos_at(s.drop_first(), d - 1);
    }
}

/// A covered page lies inside the document.
pub proof fn lemma_covers_bounds(w: Seq<u8>, total: int, p: int)
    requires
        token_covers(w, total, p),
    ensures
        1 <= p <= total,
{
}

/// The bytes of `s` between `a` and `b`.
fn copy_slice_range(s: &[u8], a: usize, b: usize) -> (r: Vec<u8>)
    requires
        a <= b <= s@.len(),
    ensures
        r@ == s@.subrange(a as int, b as int),
{
    let mut out: Vec<u8> = Vec::new();
    let mut k: usize = a;
    #[verifier::loop_isolation(false)]
    while k < b
        invariant
            a <= k <= b,
            out@ =~= s@.subrange(a as int, k as int),
        decreases b - k,
    {
        out.push(*vstd::slice::slice_index_get(s, k));
        k = k + 1;
        proof {
            assert(out@ =~= s@.subrange(a as int, k as int));
        }
    }
    out
}

/// The bytes of `v` between `a` and `b`.
fn copy_vec_range(v: &Vec<u8>, a: usize, b: usize) -> (r: Vec<u8>)
    requires
        a <= b <= v@.len(),
    ensures
        r@ == v@.subrange(a as int, b as int),
{
    let mut out: Vec<u8> = Vec::new();
    let mut k: usize = a;
    #[verifier::loop_isolation(false)]
    while k < b
        invariant
            a <= k <= b,
            out@ =~= v@.subrange(a as int, k as int),
        decreases b - k,
    {
        out.push(v[k]);
        k = k + 1;
        proof {
            assert(out@ =~= v@.subrange(a as int, k as int));
        }
    }
    out
}

/// An ASCII whitespace byte.
fn byte_is_space(c: u8) -> (r: bool)
    ensures
        r == is_space(c),
{
    c == 32 || c == 9 || c == 10 || c == 13 || c == 11 || c == 12
}

/// The token with surrounding whitespace dropped.
#[verifier::loop_isolation(false)]
fn trim_vec(t: &Vec<u8>) -> (w: Vec<u8>)
    ensures
        w@ == trim(t@),
{
    let n = t.len();
    let mut a: usize = 0;
    while a < n && byte_is_space(t[a])
        invariant
            0 <= a <= n,
            forall|i: int| 0 <= i < a ==> is_space(#[trigger] t@[i]),
        decreases n - a,
    {
        a = a + 1;
    }
    let mut b: usize = n;
    while b > a && byte_is_space(t[b - 1])
        invariant
            a <= b <= n,
            forall|i: int| b <= i < n ==> is_space(#[trigger] t@[i]),
        decreases b,
    {
        b = b - 1;
    }
    let w = copy_vec_range(t, a, b);
    proof {
        lemma_trim_start_at(t@, a as int);
        let mid = t@.skip(a as int);
        if b == a {
            lemma_trim_end_at(mid, 0);
            assert(mid.take(0) =~= t@.subrange(a as int, b as int));
        } else {
            lemma_trim_end_at(mid, b - a);
            assert(mid.take(b - a) =~= t@.subrange(a as int, b as int));
        }
    }
    w
}

/// The decimal value of the token, if it is a parseable count.
#[verifier::loop_isolation(false)]
fn parse_usize(w: &Vec<u8>) -> (r: Option<usize>)
    ensures
        match r {
            Some(v) => parseable(w@) && v == num_val(w@),
            None => !parseable(w@),
        },
{
    let n = w.len();
    if n == 0 {
        return None;
    }
    let mut acc: usize = 0;
    let mut k: usize = 0;
    while k < n
        invariant
            0 <= k <= n,
            all_digits(w@.take(k as int)),
            acc == num_val(w@.take(k as int)),
        decreases n - k,
    {
        let c = w[k];
        if c < 48 || c > 57 {
            return None;
        }
        let d = (c - 48) as usize;
        proof {
            assert(w@.take(k as int + 1).drop_last() =~= w@.take(k as int));
            assert(all_digits(w@.take(k as int + 1)));
            assert(num_val(w@.take(k as int + 1)) == acc * 10 + d);
        }
        if acc > usize::MAX / 10 || (acc == usize::MAX / 10 && d > usize::MAX % 10) {
            proof {
                assert(acc * 10 + d > usize::MAX);
                if all_digits(w@) {
                    lemma_num_prefix_le(w@, k as int + 1);
                }
            }
            return None;
        }
        acc = acc * 10 + d;
        k = k + 1;
    }
    proof {
        assert(w@.take(n as int) =~= w@);
    }
    Some(acc)
}

/// The number of dashes and the position of the first one.
#[verifier::loop_isolation(false)]
fn find_dash(w: &Vec<u8>) -> (r: (usize, usize))
    ensures
        r.0 == dash_count(w@),
        r.0 > 0 ==> r.1 < w@.len() && w@[r.1 as int] == 45
            && (forall|j: int| 0 <= j < r.1 ==> w@[j] != 45)
            && r.1 == dash_pos(w@),
{
    let n = w.len();
    let mut cnt: usize = 0;
    let mut first: usize = n;
    let mut k: usize = 0;
    while k < n
        invariant
            0 <= k <= n,
            cnt == dash_count(w@.take(k as int)),
            cnt <= k,
            cnt == 0 <==> first == n,
            cnt > 0 ==> first < k && w@[first as int] == 45
                && (forall|j: int| 0 <= j < first ==> w@[j] != 45),
            cnt == 0 ==> forall|j: int| 0 <= j < k ==> w@[j] != 45,
        decreases n - k,
    {
        proof {
            assert(w@.take(k as int + 1).drop_last() =~= w@.take(k as int));
        }
        if w[k] == 45 {
            if cnt == 0 {
                first = k;
            }
            cnt = cnt + 1;
        }
        k = k + 1;
    }
    proof {
        assert(w@.take(n as int) =~= w@);
        if cnt > 0 {
            lemma_dash_pos_at(w@, first as int);
        }
    }
    (cnt, first)
}

} // verus!

verus! {

/// Evaluates one raw token: nothing for an empty token, the inclusive page
/// interval it selects, or the error that rejects it.
#[verifier::loop_isolation(false)]
fn eval_token(tok: &Vec<u8>, total: usize) -> (r: Result<Option<(usize, usize)>, RangeError>)
    requires
        total >= 1,
    ensures
        match r {
            Ok(interval) => match interval {
                Some(ab) => token_valid(trim(tok@), total as int)
                    && 1 <= ab.0 <= ab.1 <= total
                    && (forall|p: int| ab.0 <= p <= ab.1
                        <==> token_covers(trim(tok@), total as int, p)),
                None => trim(tok@).len() == 0,
            },
            Err(e) => err_matches(trim(tok@), total as int, e),
        },
{
    let w = trim_vec(tok);
    if w.len() == 0 {
        return Ok(None);
    }
    let (dcount, dpos) = find_dash(&w);
    if dcount == 0 {
        match parse_usize(&w) {
            None => Err(RangeError::InvalidNumber { token: w }),
            Some(v) => {
                if v < 1 || v > total {
                    Err(RangeError::PageOutOfRange { token: w, total })
                } else {
                    Ok(Some((v, v)))
                }
            },
        }
    } else if dcount != 1 {
        Err(RangeError::InvalidRangeSyntax { token: w })
    } else {
        proof {
            assert(w@.subrange(0, dpos as int) =~= w@.take(dpos as int));
            assert(w@.subrange(dpos as int + 1, w@.len() as int) =~= w@.skip(dpos as int + 1));
        }
        let left = copy_vec_range(&w, 0, dpos);
        let a_t = trim_vec(&left);
        let right = copy_vec_range(&w, dpos + 1, w.len());
        let b_t = trim_vec(&right);
        if a_t.len() == 0 {
            return Err(RangeError::EmptyRangeStart { token: w });
        }
        let a = match parse_usize(&a_t) {
            None => {
                return Err(RangeError::InvalidNumber { token: w });
            },
            Some(x) => x,
        };
        let b_opt: Option<usize> = if b_t.len() == 0 {
            None
        } else {
            match parse_usize(&b_t) {
                None => {
                    return Err(RangeError::InvalidNumber { token: w });
                },
                Some(x) => Some(x),
            }
        };
        if a < 1 {
            return Err(RangeError::PageOutOfRange { token: w, total });
        }
        if a > total {
            return Err(RangeError::StartBeyondEnd { start: a, total });
        }
        match b_opt {
            None => Ok(Some((a, total))),
            Some(b) => {
                if b > total {
                    return Err(RangeError::EndBeyondEnd { end: b, total });
                }
                if a > b {
                    return Err(RangeError::BackwardsRange { token: w });
                }
                Ok(Some((a, b)))
            },
        }
    }
}

/// Parses a page selection against a document of `total_pages` entry
/// points.
///
/// A document without pages rejects every selection. Otherwise the
/// selection is accepted exactly when every token passes its checks, and
/// the result is the sorted, deduplicated union of the token expansions: a
/// strictly ascending list holding exactly the pages that some token
/// covers. A rejected selection reports the first failing token.
#[verifier::loop_isolation(false)]
pub fn parse_page_ranges(spec_str: &[u8], total_pages: usize) -> (r: Result<
    Vec<usize>,
    RangeError,
>)
    requires
        total_pages < usize::MAX,
    ensures
        total_pages == 0 ==> r matches Err(RangeError::NoPages),
        total_pages >= 1 ==> match r {
            Ok(v) => {
                &&& (forall|j: int| 0 <= j < tokens(spec_str@).len()
                    ==> token_valid(trim(#[trigger] tokens(spec_str@)[j]), total_pages as int))
                &&& (forall|i: int, j: int| 0 <= i < j < v@.len() ==> v@[i] < v@[j])
                &&& (forall|p: usize| v@.contains(p)
                    <==> exists|j: int| 0 <= j < tokens(spec_str@).len()
                        && token_covers(
                        trim(#[trigger] tokens(spec_str@)[j]),
                        total_pages as int,
                        p as int,
                    ))
            },
            Err(e) => exists|k: int|
                0 <= k < tokens(spec_str@).len()
                    && err_matches(trim(#[trigger] tokens(spec_str@)[k]), total_pages as int, e)
                    && (forall|j: int| 0 <= j < k
                        ==> token_valid(trim(tokens(spec_str@)[j]), total_pages as int)),
        },
{
    if total_pages == 0 {
        return Err(RangeError::NoPages);
    }
    let n = spec_str.len();
    let ghost tks = tokens(spec_str@);
    let mut marks: Vec<bool> = Vec::new();
    let mut z: usize = 0;
    while z <= total_pages
        invariant
            0 <= z <= total_pages + 1,
            marks@.len() == z,
            forall|q: int| 0 <= q < z ==> !(#[trigger] marks@[q]),
        decreases total_pages + 1 - z,
    {
        marks.push(false);
        z = z + 1;
    }
    let mut pos: usize = 0;
    let mut finished: bool = false;
    let ghost mut idx: int = 0;
    proof {
        assert(spec_str@.skip(0) =~= spec_str@);
        assert(tks.skip(0) =~= tks);
    }
    while !finished
        invariant
            n == spec_str@.len(),
            total_pages >= 1,
            marks@.len() == total_pages + 1,
            0 <= idx <= tks.len(),
            tks == tokens(spec_str@),
            !finished ==> pos <= n && idx < tks.len()
                && tokens(spec_str@.skip(pos as int)) == tks.skip(idx),
            finished ==> idx == tks.len(),
            forall|j: int| 0 <= j < idx ==> token_valid(trim(#[trigger] tks[j]), total_pages as int),
            forall|q: int| 0 <= q < marks@.len()
                ==> ((#[trigger] marks@[q]) <==> exists|j: int|
                    0 <= j < idx && token_covers(trim(#[trigger] tks[j]), total_pages as int, q)),
        decreases (if finished { 0int } else { 1int }), n - pos,
    {
        let mut e: usize = pos;
        while e < n && *vstd::slice::slice_index_get(spec_str, e) != 44
            invariant
                pos <= e <= n,
                forall|j: int| pos <= j < e ==> spec_str@[j] != 44,
            decreases n - e,
        {
            e = e + 1;
        }
        let tok = copy_slice_range(spec_str, pos, e);
        let ghost suf = spec_str@.skip(pos as int);
        proof {
            if e < n {
                lemma_tokens_split(suf, e - pos);
                assert(suf.take(e - pos) =~= spec_str@.subrange(pos as int, e as int));
                assert(suf.skip(e - pos + 1) =~= spec_str@.skip(e as int + 1));
                assert(tks.skip(idx)[0] == tks[idx]);
                assert(tks[idx] == tok@);
                assert(tokens(spec_str@.skip(e as int + 1)) =~= tks.skip(idx).drop_first());
                assert(tks.skip(idx).drop_first() =~= tks.skip(idx + 1));
            } else {
                lemma_tokens_whole(suf);
                assert(suf =~= spec_str@.subrange(pos as int, e as int));
                assert(tks.skip(idx)[0] == tks[idx]);
                assert(tks[idx] == tok@);
                assert(tks.skip(idx).len() == 1);
                assert(idx + 1 == tks.len());
            }
        }
        match eval_token(&tok, total_pages) {
            Err(err) => {
                return Err(err);
            },
            Ok(None) => {},
            Ok(Some((a, b))) => {
                let mut p: usize = a;
                let ghost marks_in = marks@;
                while p <= b
                    invariant
                        a <= p <= b + 1,
                        b <= total_pages,
                        marks@.len() == marks_in.len() == total_pages + 1,
                        forall|q: int| 0 <= q < marks@.len()
                            ==> ((#[trigger] marks@[q]) <==> marks_in[q] || a <= q < p),
                    decreases b + 1 - p,
                {
                    let ghost before = marks@;
                    vstd::pervasive::VecAdditionalExecFns::set(&mut marks, p, true);
                    p = p + 1;
                }
            },
        }
        proof {
            idx = idx + 1;
        }
        if e < n {
            pos = e + 1;
        } else {
            finished = true;
        }
        proof {
            assert forall|q: int| 0 <= q < marks@.len()
                implies ((#[trigger] marks@[q]) <==> exists|j: int|
                    0 <= j < idx && token_covers(trim(#[trigger] tks[j]), total_pages as int, q))
                by {
                if marks@[q] {
                    // either an earlier token covered q or this one did
                }
            }
        }
    }
    let mut v: Vec<usize> = Vec::new();
    let mut p: usize = 1;
    while p <= total_pages
        invariant
            1 <= p <= total_pages + 1,
            marks@.len() == total_pages + 1,
            forall|i: int, j: int| 0 <= i < j < v@.len() ==> v@[i] < v@[j],
            forall|i: int| 0 <= i < v@.len() ==> 1 <= (#[trigger] v@[i]) < p,
            forall|q: usize| v@.contains(q) <==> 1 <= q < p && marks@[q as int],
        decreases total_pages + 1 - p,
    {
        if marks[p] {
            let ghost vb = v@;
            v.push(p);
            proof {
                assert forall|q: usize| v@.contains(q) implies 1 <= q < p + 1
                    && marks@[q as int] by {
                    let k = choose|k: int| 0 <= k < v@.len() && v@[k] == q;
                    if k < vb.len() {
                        assert(vb[k] == q);
                        assert(vb.contains(q));
                    }
                }
                assert forall|q: usize| 1 <= q < p + 1 && marks@[q as int]
                    implies v@.contains(q) by {
                    if q < p {
                        assert(vb.contains(q));
                        let k = choose|k: int| 0 <= k < vb.len() && vb[k] == q;
                        assert(v@[k] == q);
                    } else {
                        assert(v@[v@.len() - 1] == q);
                    }
                }
            }
        }
        p = p + 1;
    }
    proof {
        assert forall|q: usize| v@.contains(q) implies (exists|j: int|
            0 <= j < tks.len()
                && token_covers(trim(#[trigger] tks[j]), total_pages as int, q as int)) by {
            assert(1 <= q <= total_pages && marks@[q as int]);
        }
        assert forall|q: usize| (exists|j: int|
            0 <= j < tks.len()
                && token_covers(trim(#[trigger] tks[j]), total_pages as int, q as int))
            implies v@.contains(q) by {
            let j = choose|j: int|
                0 <= j < tks.len()
                    && token_covers(trim(#[trigger] tks[j]), total_pages as int, q as int);
            lemma_covers_bounds(trim(tks[j]), total_pages as int, q as int);
            assert(marks@[q as int]);
        }
    }
    Ok(v)
}

/// Whether the pages form one gapless ascending run.
pub fn is_contiguous(pages: &Vec<usize>) -> (r: bool)
    ensures
        r == (forall|i: int| 1 <= i < pages@.len()
            ==> (#[trigger] pages@[i]) == pages@[i - 1] + 1),
{
    if pages.len() <= 1 {
        return true;
    }
    let mut i: usize = 1;
    #[verifier::loop_isolation(false)]
    while i < pages.len()
        invariant
            1 <= i <= pages@.len(),
            forall|j: int| 1 <= j < i ==> (#[trigger] pages@[j]) == pages@[j - 1] + 1,
        decreases pages@.len() - i,
    {
        if pages[i - 1] == usize::MAX || pages[i] != pages[i - 1] + 1 {
            proof {
                assert((#[trigger] pages@[i as int]) != pages@[i as int - 1] + 1);
            }
            return false;
        }
        i = i + 1;
    }
    true
}

} // verus!

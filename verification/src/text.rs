//! Byte-level text helpers shared by the daily solvers: splitting on a
//! separator, line and whitespace-token splitting, and integer parsing.
//!
//! Every executable helper is specified against a recursive spec function
//! over `Seq<u8>`, so the day modules can state their own contracts in terms
//! of those spec functions.

use vstd::prelude::*;

verus! {

/// ASCII whitespace: space, tab, line feed, vertical tab, form feed, carriage return.
pub open spec fn is_ws(b: u8) -> bool {
    b == 32 || (9 <= b && b <= 13)
}

/// ASCII decimal digit.
pub open spec fn is_digit(b: u8) -> bool {
    48 <= b && b <= 57
}

/// The pattern `pat` occurs in `s` starting at index `i`.
pub open spec fn match_at(s: Seq<u8>, pat: Seq<u8>, i: int) -> bool {
    &&& 0 <= i
    &&& i + pat.len() <= s.len()
    &&& forall|j: int| 0 <= j < pat.len() ==> s[i + j] == pat[j]
}

/// Index of the first occurrence of `pat` in `s`, or -1 when there is none.
pub open spec fn find_pat(s: Seq<u8>, pat: Seq<u8>) -> int
    decreases s.len(),
{
    if s.len() < pat.len() {
        -1
    } else if match_at(s, pat, 0) {
        0
    } else if s.len() == 0 {
        -1
    } else {
        let r = find_pat(s.skip(1), pat);
        if r < 0 {
            -1
        } else {
            1 + r
        }
    }
}

pub proof fn lemma_match_at_skip(s: Seq<u8>, pat: Seq<u8>, k: int, i: int)
    requires
        0 <= k <= s.len(),
        0 <= i,
    ensures
        match_at(s.skip(k), pat, i) <==> match_at(s, pat, k + i),
{
    if match_at(s.skip(k), pat, i) {
        assert forall|j: int| 0 <= j < pat.len() implies s[k + i + j] == pat[j] by {
            assert(s.skip(k)[i + j] == pat[j]);
        }
    }
    if match_at(s, pat, k + i) && i + pat.len() <= s.skip(k).len() {
        assert forall|j: int| 0 <= j < pat.len() implies s.skip(k)[i + j] == pat[j] by {
            assert(s[k + i + j] == pat[j]);
        }
    }
}

/// `find_pat` returns the least index at which `pat` occurs, or -1 when it
/// occurs nowhere.
pub proof fn lemma_find_pat_spec(s: Seq<u8>, pat: Seq<u8>)
    requires
        pat.len() >= 1,
    ensures
        find_pat(s, pat) == -1 ==> forall|i: int| !match_at(s, pat, i),
        find_pat(s, pat) >= 0 ==> match_at(s, pat, find_pat(s, pat)),
        find_pat(s, pat) >= 0 ==> forall|j: int| 0 <= j < find_pat(s, pat) ==> !match_at(s, pat, j),
        find_pat(s, pat) >= -1,
        find_pat(s, pat) >= 0 ==> find_pat(s, pat) <= s.len() - pat.len(),
    decreases s.len(),
{
    if s.len() < pat.len() {
        // no index can host the pattern
    } else if match_at(s, pat, 0) {
        // found at 0
    } else {
        lemma_find_pat_spec(s.skip(1), pat);
        let r = find_pat(s.skip(1), pat);
        assert forall|i: int| 1 <= i implies (match_at(s, pat, i) <==> match_at(
            s.skip(1),
            pat,
            i - 1,
        )) by {
            lemma_match_at_skip(s, pat, 1, i - 1);
        }
        if r < 0 {
            assert forall|i: int| !match_at(s, pat, i) by {
                if i >= 1 {
                    assert(!match_at(s.skip(1), pat, i - 1));
                }
            }
        } else {
            assert(match_at(s.skip(1), pat, r));
            lemma_match_at_skip(s, pat, 1, r);
            assert forall|j: int| 0 <= j < 1 + r implies !match_at(s, pat, j) by {
                if j >= 1 {
                    assert(!match_at(s.skip(1), pat, j - 1));
                }
            }
        }
    }
}

/// The pieces of `s` cut at each occurrence of `pat`, in order. The
/// separators themselves are dropped; `n` occurrences give `n + 1` pieces.
pub open spec fn split_pat(s: Seq<u8>, pat: Seq<u8>) -> Seq<Seq<u8>>
    decreases s.len(),
    via split_pat_decreases
{
    if pat.len() == 0 || find_pat(s, pat) < 0 {
        seq![s]
    } else {
        let i = find_pat(s, pat);
        seq![s.take(i)] + split_pat(s.skip(i + pat.len()), pat)
    }
}

#[via_fn]
proof fn split_pat_decreases(s: Seq<u8>, pat: Seq<u8>) {
    if !(pat.len() == 0 || find_pat(s, pat) < 0) {
        lemma_find_pat_spec(s, pat);
    }
}

/// The lines of `s`: pieces cut at each line feed, with one final line feed,
/// if any, not opening an extra empty line.
pub open spec fn lines_spec(s: Seq<u8>) -> Seq<Seq<u8>> {
    if s.len() == 0 {
        Seq::empty()
    } else if s.last() == 10u8 {
        split_pat(s.drop_last(), seq![10u8])
    } else {
        split_pat(s, seq![10u8])
    }
}

/// Length of the leading run of non-whitespace bytes.
pub open spec fn token_end(s: Seq<u8>) -> int
    decreases s.len(),
{
    if s.len() == 0 {
        0
    } else if is_ws(s[0]) {
        0
    } else {
        1 + token_end(s.skip(1))
    }
}

pub proof fn lemma_token_end_spec(s: Seq<u8>)
    ensures
        0 <= token_end(s) <= s.len(),
        forall|j: int| 0 <= j < token_end(s) ==> !is_ws(s[j]),
        token_end(s) < s.len() ==> is_ws(s[token_end(s)]),
    decreases s.len(),
{
    if s.len() == 0 || is_ws(s[0]) {
    } else {
        lemma_token_end_spec(s.skip(1));
        assert forall|j: int| 0 <= j < token_end(s) implies !is_ws(s[j]) by {
            if j >= 1 {
                assert(!is_ws(s.skip(1)[j - 1]));
            }
        }
        if token_end(s) < s.len() {
            assert(is_ws(s.skip(1)[token_end(s) - 1]));
        }
    }
}

/// The whitespace-separated tokens of `s`, in order, each one nonempty.
pub open spec fn tokens_spec(s: Seq<u8>) -> Seq<Seq<u8>>
    decreases s.len(),
    via tokens_spec_decreases
{
    if s.len() == 0 {
        Seq::empty()
    } else if is_ws(s[0]) {
        tokens_spec(s.skip(1))
    } else {
        let k = token_end(s);
        seq![s.take(k)] + tokens_spec(s.skip(k))
    }
}

#[via_fn]
proof fn tokens_spec_decreases(s: Seq<u8>) {
    if s.len() != 0 && !is_ws(s[0]) {
        lemma_token_end_spec(s);
    }
}

/// All bytes of `s` are decimal digits.
pub open spec fn all_digits(s: Seq<u8>) -> bool {
    forall|i: int| 0 <= i < s.len() ==> is_digit(s[i])
}

/// The value of a digit string, most significant digit first.
pub open spec fn digits_val(s: Seq<u8>) -> nat
    decreases s.len(),
{
    if s.len() == 0 {
        0
    } else {
        digits_val(s.drop_last()) * 10 + (s.last() - 48) as nat
    }
}

/// A longer digit string never has a smaller value.
pub proof fn lemma_digits_val_prefix(s: Seq<u8>, k: int)
    requires
        0 <= k <= s.len(),
        all_digits(s),
    ensures
        digits_val(s.take(k)) <= digits_val(s),
    decreases s.len() - k,
{
    if k < s.len() {
        lemma_digits_val_prefix(s, k + 1);
        assert(s.take(k + 1).drop_last() =~= s.take(k));
        assert(digits_val(s.take(k + 1)) == digits_val(s.take(k)) * 10 + (s[k] - 48) as nat);
    } else {
        assert(s.take(k) =~= s);
    }
}

/// `s` without one leading plus sign, if it has one.
pub open spec fn strip_plus(s: Seq<u8>) -> Seq<u8> {
    if s.len() >= 1 && s[0] == 43u8 {
        s.skip(1)
    } else {
        s
    }
}

/// `s` without one leading plus or minus sign, if it has one.
pub open spec fn strip_sign(s: Seq<u8>) -> Seq<u8> {
    if s.len() >= 1 && (s[0] == 43u8 || s[0] == 45u8) {
        s.skip(1)
    } else {
        s
    }
}

/// `parse_usize_spec` after the sign has been stripped.
pub open spec fn parse_usize_spec_body(body: Seq<u8>) -> Option<nat> {
    if body.len() >= 1 && all_digits(body) && digits_val(body) <= usize::MAX {
        Some(digits_val(body))
    } else {
        None
    }
}

/// The digits of an unsigned number, with one optional leading plus sign
/// accepted, read as a value; `None` on any other shape or when the value
/// does not fit in `usize`.
pub open spec fn parse_usize_spec(s: Seq<u8>) -> Option<nat> {
    parse_usize_spec_body(strip_plus(s))
}

/// `parse_i64_spec` after the sign has been stripped.
pub open spec fn parse_i64_spec_body(neg: bool, body: Seq<u8>) -> Option<int> {
    if body.len() >= 1 && all_digits(body) {
        let v = if neg {
            -(digits_val(body) as int)
        } else {
            digits_val(body) as int
        };
        if i64::MIN <= v <= i64::MAX {
            Some(v)
        } else {
            None
        }
    } else {
        None
    }
}

/// The digits of a signed number, with one optional leading plus or minus
/// sign, read as a value; `None` on any other shape or when the value does
/// not fit in `i64`.
pub open spec fn parse_i64_spec(s: Seq<u8>) -> Option<int> {
    parse_i64_spec_body(s.len() >= 1 && s[0] == 45u8, strip_sign(s))
}

/// Apply a partial reading function to every element: all results in order,
/// or `None` as soon as one element fails.
pub open spec fn map_opt<A, B>(s: Seq<A>, f: spec_fn(A) -> Option<B>) -> Option<Seq<B>>
    decreases s.len(),
{
    if s.len() == 0 {
        Some(Seq::empty())
    } else {
        match map_opt(s.drop_last(), f) {
            None => None,
            Some(vs) => match f(s.last()) {
                None => None,
                Some(v) => Some(vs.push(v)),
            },
        }
    }
}

/// `map_opt` succeeds exactly when every element reads, and then holds the
/// read values in order.
pub proof fn lemma_map_opt<A, B>(s: Seq<A>, f: spec_fn(A) -> Option<B>)
    ensures
        map_opt(s, f) is Some <==> (forall|j: int| 0 <= j < s.len() ==> f(#[trigger] s[j]) is Some),
        map_opt(s, f) is Some ==> {
            &&& (map_opt(s, f)->0).len() == s.len()
            &&& forall|j: int|
                0 <= j < s.len() ==> (#[trigger] (map_opt(s, f)->0)[j]) == f(s[j])->0
        },
    decreases s.len(),
{
    if s.len() > 0 {
        lemma_map_opt(s.drop_last(), f);
        assert(forall|j: int| 0 <= j < s.len() - 1 ==> #[trigger] s[j] == s.drop_last()[j]);
    }
}

/// A fresh copy of the bytes of `s` from `a` (inclusive) to `b` (exclusive).
pub fn copy_range(s: &[u8], a: usize, b: usize) -> (r: Vec<u8>)
    requires
        a <= b <= s@.len(),
    ensures
        r@ == s@.subrange(a as int, b as int),
{
    let mut r: Vec<u8> = Vec::new();
    let mut i: usize = a;
    while i < b
        invariant
            a <= i <= b <= s@.len(),
            r@ =~= s@.subrange(a as int, i as int),
        decreases b - i,
    {
        r.push(s[i]);
        i = i + 1;
        proof {
            assert(r@ =~= s@.subrange(a as int, i as int));
        }
    }
    r
}

/// Least index at or after `from` where `pat` occurs in `s`, if any.
pub fn find_pat_from(s: &[u8], pat: &[u8], from: usize) -> (r: Option<usize>)
    requires
        pat@.len() >= 1,
        from <= s@.len(),
    ensures
        match r {
            Some(i) => {
                &&& from <= i
                &&& i + pat@.len() <= s@.len()
                &&& match_at(s@, pat@, i as int)
                &&& forall|j: int| from <= j < i ==> !match_at(s@, pat@, j)
            },
            None => forall|j: int| from <= j ==> !match_at(s@, pat@, j),
        },
{
    let n = s.len();
    let m = pat.len();
    if n < m {
        return None;
    }
    let mut i: usize = from;
    while i <= n - m
        invariant
            from <= i,
            m == pat@.len(),
            n == s@.len(),
            1 <= m <= n,
            forall|j: int| from <= j < i ==> !match_at(s@, pat@, j),
        decreases n - i,
    {
        let mut k: usize = 0;
        let mut ok: bool = true;
        while k < m
            invariant
                0 <= k <= m,
                m == pat@.len(),
                n == s@.len(),
                i + m <= n,
                ok <==> (forall|j: int| 0 <= j < k ==> s@[i + j] == pat@[j]),
            decreases m - k,
        {
            if s[i + k] != pat[k] {
                ok = false;
            }
            k = k + 1;
        }
        if ok {
            return Some(i);
        }
        assert(!match_at(s@, pat@, i as int));
        i = i + 1;
    }
    assert forall|j: int| from <= j implies !match_at(s@, pat@, j) by {
        if j < i {
        } else {
            assert(j + pat@.len() > s@.len());
        }
    }
    None
}

/// The views of a sequence of byte vectors.
pub open spec fn views(r: Seq<Vec<u8>>) -> Seq<Seq<u8>> {
    r.map_values(|v: Vec<u8>| v@)
}

/// Split `s` at each occurrence of `pat`, per `split_pat`.
pub fn split_pat_exec(s: &[u8], pat: &[u8]) -> (r: Vec<Vec<u8>>)
    requires
        pat@.len() >= 1,
    ensures
        views(r@) == split_pat(s@, pat@),
{
    let mut r: Vec<Vec<u8>> = Vec::new();
    let mut start: usize = 0;
    let n = s.len();
    proof {
        assert(s@.skip(0) =~= s@);
        assert(views(r@) + split_pat(s@, pat@) =~= split_pat(s@, pat@));
    }
    loop
        invariant
            pat@.len() >= 1,
            start <= s@.len(),
            n == s@.len(),
            split_pat(s@, pat@) =~= views(r@) + split_pat(s@.skip(start as int), pat@),
        decreases s@.len() - start,
    {
        let ghost rest = s@.skip(start as int);
        match find_pat_from(s, pat, start) {
            Some(i) => {
                proof {
                    lemma_find_pat_spec(rest, pat@);
                    lemma_match_at_skip(s@, pat@, start as int, i - start);
                    assert forall|j: int| 0 <= j < i - start implies !match_at(rest, pat@, j) by {
                        lemma_match_at_skip(s@, pat@, start as int, j);
                    }
                    assert(find_pat(rest, pat@) == i - start);
                    assert(rest.take(i - start) =~= s@.subrange(start as int, i as int));
                    assert(rest.skip(i - start + pat@.len()) =~= s@.skip(
                        i + pat@.len() as int,
                    ));
                }
                let piece = copy_range(s, start, i);
                r.push(piece);
                proof {
                    assert(views(r@) =~= views(r@.drop_last()) + seq![piece@]);
                    assert(i + pat@.len() <= s@.len());
                }
                start = i + pat.len();
            },
            None => {
                proof {
                    lemma_find_pat_spec(rest, pat@);
                    assert forall|j: int| 0 <= j implies !match_at(rest, pat@, j) by {
                        lemma_match_at_skip(s@, pat@, start as int, j);
                    }
                    assert(find_pat(rest, pat@) < 0);
                }
                let piece = copy_range(s, start, s.len());
                proof {
                    assert(piece@ =~= rest);
                }
                r.push(piece);
                proof {
                    assert(views(r@) =~= views(r@.drop_last()) + seq![piece@]);
                    assert(views(r@) =~= split_pat(s@, pat@));
                }
                return r;
            },
        }
    }
}

/// The lines of `s`, per `lines_spec`.
pub fn lines_of(s: &[u8]) -> (r: Vec<Vec<u8>>)
    ensures
        views(r@) == lines_spec(s@),
{
    let n = s.len();
    if n == 0 {
        let r: Vec<Vec<u8>> = Vec::new();
        proof {
            assert(views(r@) =~= lines_spec(s@));
        }
        return r;
    }
    let end: usize = if s[n - 1] == 10 {
        n - 1
    } else {
        n
    };
    let body = copy_range(s, 0, end);
    let pat: Vec<u8> = vec![10u8];
    proof {
        if s@.last() == 10u8 {
            assert(body@ =~= s@.drop_last());
        } else {
            assert(body@ =~= s@);
        }
        assert(pat@ =~= seq![10u8]);
    }
    split_pat_exec(body.as_slice(), pat.as_slice())
}

/// The whitespace-separated tokens of `s`, per `tokens_spec`.
pub fn tokens_of(s: &[u8]) -> (r: Vec<Vec<u8>>)
    ensures
        views(r@) == tokens_spec(s@),
{
    let n = s.len();
    let mut r: Vec<Vec<u8>> = Vec::new();
    let mut i: usize = 0;
    proof {
        assert(s@.skip(0) =~= s@);
        assert(views(r@) + tokens_spec(s@) =~= tokens_spec(s@));
    }
    while i < n
        invariant
            i <= n,
            n == s@.len(),
            tokens_spec(s@) =~= views(r@) + tokens_spec(s@.skip(i as int)),
        decreases n - i,
    {
        let ghost rest = s@.skip(i as int);
        if is_ws_exec(s[i]) {
            proof {
                assert(rest.skip(1) =~= s@.skip(i + 1));
            }
            i = i + 1;
        } else {
            proof {
                lemma_token_end_spec(rest);
            }
            let mut j: usize = i + 1;
            while j < n && !is_ws_exec(s[j])
                invariant
                    i < j <= n,
                    n == s@.len(),
                    forall|t: int| i <= t < j ==> !is_ws(s@[t]),
                decreases n - j,
            {
                j = j + 1;
            }
            proof {
                let k = token_end(rest);
                assert forall|t: int| 0 <= t < j - i implies !is_ws(rest[t]) by {
                    assert(rest[t] == s@[i + t]);
                }
                if k < j - i {
                    assert(!is_ws(rest[k]));
                    assert(false);
                }
                if k > j - i {
                    assert(j < n);
                    assert(is_ws(s@[j as int]));
                    assert(is_ws(rest[j - i]));
                    assert(false);
                }
                assert(k == j - i);
                assert(rest.take(k) =~= s@.subrange(i as int, j as int));
                assert(rest.skip(k) =~= s@.skip(j as int));
            }
            let piece = copy_range(s, i, j);
            r.push(piece);
            proof {
                assert(views(r@) =~= views(r@.drop_last()) + seq![piece@]);
            }
            i = j;
        }
    }
    proof {
        assert(s@.skip(i as int) =~= Seq::<u8>::empty());
        assert(views(r@) =~= tokens_spec(s@));
    }
    r
}

/// Relies on `String::from_utf8`: ASCII bytes are valid UTF-8 and decode one
/// byte to one character, each with the byte's own code point.
#[verifier::external_body]
pub fn ascii_to_string(v: Vec<u8>) -> (r: String)
    requires
        forall|i: int| 0 <= i < v@.len() ==> v@[i] < 128,
    ensures
        r@ == v@.map_values(|b: u8| b as char),
{
    match String::from_utf8(v) {
        Ok(s) => s,
        Err(_) => String::new(),
    }
}

/// Whether two byte strings hold the same bytes.
pub fn bytes_eq(a: &[u8], b: &[u8]) -> (r: bool)
    ensures
        r <==> a@ == b@,
{
    let n = a.len();
    if n != b.len() {
        proof {
            assert(a@ != b@);
        }
        return false;
    }
    let mut i: usize = 0;
    while i < n
        invariant
            i <= n,
            n == a@.len(),
            n == b@.len(),
            forall|j: int| 0 <= j < i ==> a@[j] == b@[j],
        decreases n - i,
    {
        if a[i] != b[i] {
            return false;
        }
        i = i + 1;
    }
    proof {
        assert(a@ =~= b@);
    }
    true
}

/// Whether `b` is ASCII whitespace, per `is_ws`.
pub fn is_ws_exec(b: u8) -> (r: bool)
    ensures
        r == is_ws(b),
{
    b == 32 || (9 <= b && b <= 13)
}

/// Parse an unsigned number, per `parse_usize_spec`.
pub fn parse_usize(s: &[u8]) -> (r: Option<usize>)
    ensures
        r is Some <==> parse_usize_spec(s@) is Some,
        r is Some ==> r->0 as nat == parse_usize_spec(s@)->0,
{
    let n = s.len();
    let start: usize = if n >= 1 && s[0] == 43 {
        1
    } else {
        0
    };
    let ghost body = strip_plus(s@);
    proof {
        assert(body =~= s@.subrange(start as int, n as int));
    }
    if start >= n {
        return None;
    }
    let mut acc: usize = 0;
    let mut i: usize = start;
    while i < n
        invariant
            start <= i <= n,
            n == s@.len(),
            body == strip_plus(s@),
            body =~= s@.subrange(start as int, n as int),
            all_digits(body.take(i - start)),
            acc as nat == digits_val(body.take(i - start)),
        decreases n - i,
    {
        let b = s[i];
        if !(48 <= b && b <= 57) {
            proof {
                assert(body[i - start] == b);
                assert(!all_digits(body));
            }
            return None;
        }
        let d: usize = (b - 48) as usize;
        let acc10 = match acc.checked_mul(10) {
            Some(v) => v,
            None => {
                proof {
                    overflow_means_none(body, i - start + 1, acc as nat * 10 + (b - 48) as nat, b);
                }
                return None;
            },
        };
        let acc2 = match acc10.checked_add(d) {
            Some(v) => v,
            None => {
                proof {
                    overflow_means_none(body, i - start + 1, acc as nat * 10 + (b - 48) as nat, b);
                }
                return None;
            },
        };
        proof {
            assert(body.take(i - start + 1).drop_last() =~= body.take(i - start));
            assert(body.take(i - start + 1).last() == b);
        }
        acc = acc2;
        i = i + 1;
    }
    proof {
        assert(body.take(n - start) =~= body);
    }
    Some(acc)
}

/// When the running value of a digit prefix already exceeds `usize::MAX`,
/// the whole string parses to `None`.
proof fn overflow_means_none(body: Seq<u8>, k: int, val: nat, b: u8)
    requires
        0 < k <= body.len(),
        all_digits(body.take(k - 1)),
        is_digit(b),
        body[k - 1] == b,
        val == digits_val(body.take(k - 1)) * 10 + (b - 48) as nat,
        val > usize::MAX,
    ensures
        parse_usize_spec_body(body) is None,
{
    if all_digits(body) {
        assert(body.take(k).drop_last() =~= body.take(k - 1));
        assert(digits_val(body.take(k)) == val);
        lemma_digits_val_prefix(body, k);
    }
}

/// Parse a signed number, per `parse_i64_spec`.
pub fn parse_i64(s: &[u8]) -> (r: Option<i64>)
    ensures
        r is Some <==> parse_i64_spec(s@) is Some,
        r is Some ==> r->0 as int == parse_i64_spec(s@)->0,
{
    let n = s.len();
    let neg = n >= 1 && s[0] == 45;
    let start: usize = if n >= 1 && (s[0] == 43 || s[0] == 45) {
        1
    } else {
        0
    };
    let ghost body = strip_sign(s@);
    proof {
        assert(body =~= s@.subrange(start as int, n as int));
    }
    if start >= n {
        return None;
    }
    let limit: u64 = if neg {
        9223372036854775808u64
    } else {
        9223372036854775807u64
    };
    let mut acc: u64 = 0;
    let mut i: usize = start;
    while i < n
        invariant
            start <= i <= n,
            n == s@.len(),
            body == strip_sign(s@),
            neg == (s@.len() >= 1 && s@[0] == 45u8),
            body =~= s@.subrange(start as int, n as int),
            all_digits(body.take(i - start)),
            acc as nat == digits_val(body.take(i - start)),
            acc <= limit,
            limit == if neg {
                9223372036854775808u64
            } else {
                9223372036854775807u64
            },
        decreases n - i,
    {
        let b = s[i];
        if !(48 <= b && b <= 57) {
            proof {
                assert(body[i - start] == b);
                assert(!all_digits(body));
            }
            return None;
        }
        let d: u64 = (b - 48) as u64;
        let next: Option<u64> = match acc.checked_mul(10) {
            Some(v) => v.checked_add(d),
            None => None,
        };
        let acc2 = match next {
            Some(v) if v <= limit => v,
            _ => {
                proof {
                    assert(body.take(i - start + 1).drop_last() =~= body.take(i - start));
                    assert(body.take(i - start + 1).last() == b);
                    assert(digits_val(body.take(i - start + 1)) == acc as nat * 10 + (b
                        - 48) as nat);
                    assert(digits_val(body.take(i - start + 1)) > limit);
                    if all_digits(body) {
                        lemma_digits_val_prefix(body, i - start + 1);
                        assert(digits_val(body) > limit);
                    }
                    assert(parse_i64_spec_body(neg, body) is None);
                }
                return None;
            },
        };
        proof {
            assert(body.take(i - start + 1).drop_last() =~= body.take(i - start));
            assert(body.take(i - start + 1).last() == b);
        }
        acc = acc2;
        i = i + 1;
    }
    proof {
        assert(body.take(n - start) =~= body);
    }
    if neg {
        if acc == 9223372036854775808u64 {
            Some(i64::MIN)
        } else {
            Some(-(acc as i64))
        }
    } else {
        Some(acc as i64)
    }
}

} // verus!

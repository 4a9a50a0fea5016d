//! Byte-level building blocks shared by the parser and the serializer:
//! scanning for delimiters, whitespace trimming, whitespace tokenization,
//! and decimal rendering/parsing for `Content-Length`.
use vstd::prelude::*;

verus! {

/// Carriage return.
pub const CR: u8 = 13;

/// Line feed.
pub const LF: u8 = 10;

/// Space.
pub const SP: u8 = 32;

/// Horizontal tab.
pub const TAB: u8 = 9;

/// Colon.
pub const COLON: u8 = 58;

/// The digit `0`.
pub const D0: u8 = 48;

/// ASCII whitespace, the set recognized when trimming header blocks and
/// splitting a request line into tokens.
pub open spec fn is_ws(b: u8) -> bool {
    b == SP || b == TAB || b == CR || b == LF
}

/// An ASCII decimal digit.
pub open spec fn is_digit(b: u8) -> bool {
    D0 <= b <= 57
}

/// True when no byte of `s` is a carriage return or a line feed.
pub open spec fn crlf_free(s: Seq<u8>) -> bool {
    forall|i: int| 0 <= i < s.len() ==> s[i] != CR && s[i] != LF
}

/// True when every byte of `s` is ASCII.
pub open spec fn all_ascii(s: Seq<u8>) -> bool {
    forall|i: int| 0 <= i < s.len() ==> s[i] < 128
}

/// The two-byte pattern `a b` starts at index `j` of `s`.
pub open spec fn pair_at(s: Seq<u8>, a: u8, b: u8, j: int) -> bool {
    s[j] == a && s[j + 1] == b
}

/// The index of the first occurrence of the two-byte pattern `a b` in `s`.
pub open spec fn find2(s: Seq<u8>, a: u8, b: u8) -> Option<int>
    decreases s.len(),
{
    if s.len() < 2 {
        None
    } else if s[0] == a && s[1] == b {
        Some(0)
    } else {
        match find2(s.drop_first(), a, b) {
            None => None,
            Some(i) => Some(i + 1),
        }
    }
}

/// `find2` returns the first index at which the pattern occurs, or `None`
/// when it occurs nowhere.
pub proof fn lemma_find2_props(s: Seq<u8>, a: u8, b: u8)
    ensures
        match find2(s, a, b) {
            Some(i) => 0 <= i && i + 2 <= s.len() && #[trigger] pair_at(s, a, b, i) && forall|
                j: int,
            | 0 <= j < i ==> !#[trigger] pair_at(s, a, b, j),
            None => forall|j: int| 0 <= j && j + 2 <= s.len() ==> !#[trigger] pair_at(s, a, b, j),
        },
    decreases s.len(),
{
    if s.len() < 2 {
    } else if s[0] == a && s[1] == b {
        assert(pair_at(s, a, b, 0));
    } else {
        lemma_find2_props(s.drop_first(), a, b);
        let t = s.drop_first();
        assert(forall|k: int| 0 <= k < t.len() ==> t[k] == s[k + 1]);
        assert(forall|j: int|
            1 <= j && j + 2 <= s.len() ==> (pair_at(s, a, b, j) == pair_at(t, a, b, j - 1)));
        assert(!pair_at(s, a, b, 0));
    }
}

/// The pattern occurs at `i` and nowhere earlier, so `find2` returns `i`.
pub proof fn lemma_find2_eq(s: Seq<u8>, a: u8, b: u8, i: int)
    requires
        0 <= i,
        i + 2 <= s.len(),
        pair_at(s, a, b, i),
        forall|j: int| 0 <= j < i ==> !#[trigger] pair_at(s, a, b, j),
    ensures
        find2(s, a, b) == Some(i),
{
    lemma_find2_props(s, a, b);
    match find2(s, a, b) {
        None => {
            assert(!pair_at(s, a, b, i));
        },
        Some(k) => {
            if k < i {
                assert(!pair_at(s, a, b, k));
            } else if k > i {
                assert(!pair_at(s, a, b, i));
            }
        },
    }
}

/// The pattern occurs nowhere in `s`, so `find2` returns `None`.
pub proof fn lemma_find2_is_none(s: Seq<u8>, a: u8, b: u8)
    requires
        forall|j: int| 0 <= j && j + 2 <= s.len() ==> !#[trigger] pair_at(s, a, b, j),
    ensures
        find2(s, a, b) is None,
{
    lemma_find2_props(s, a, b);
    if let Some(k) = find2(s, a, b) {
        assert(!pair_at(s, a, b, k));
    }
}

/// Scan `s` for the first occurrence of the two-byte pattern `a b`.
pub fn scan2(s: &[u8], a: u8, b: u8) -> (r: Option<usize>)
    ensures
        match r {
            Some(i) => find2(s@, a, b) == Some(i as int) && i + 2 <= s@.len(),
            None => find2(s@, a, b) is None,
        },
{
    let n = s.len();
    let mut i: usize = 0;
    while n - i >= 2
        invariant
            i <= n,
            n == s@.len(),
            forall|j: int| 0 <= j < i ==> !#[trigger] pair_at(s@, a, b, j),
        decreases n - i,
    {
        if s[i] == a && s[i + 1] == b {
            proof {
                assert(pair_at(s@, a, b, i as int));
                lemma_find2_eq(s@, a, b, i as int);
            }
            return Some(i);
        }
        proof {
            assert(!pair_at(s@, a, b, i as int));
        }
        i = i + 1;
    }
    proof {
        lemma_find2_is_none(s@, a, b);
    }
    None
}

/// The byte `c` occurs at index `j` of `s`.
pub open spec fn byte_at(s: Seq<u8>, c: u8, j: int) -> bool {
    s[j] == c
}

/// The index of the first occurrence of the byte `c` in `s`.
pub open spec fn find1(s: Seq<u8>, c: u8) -> Option<int>
    decreases s.len(),
{
    if s.len() == 0 {
        None
    } else if s[0] == c {
        Some(0)
    } else {
        match find1(s.drop_first(), c) {
            None => None,
            Some(i) => Some(i + 1),
        }
    }
}

/// `find1` returns the first index at which `c` occurs, or `None` when it
/// occurs nowhere.
pub proof fn lemma_find1_props(s: Seq<u8>, c: u8)
    ensures
        match find1(s, c) {
            Some(i) => 0 <= i < s.len() && #[trigger] byte_at(s, c, i) && forall|j: int|
                0 <= j < i ==> !#[trigger] byte_at(s, c, j),
            None => forall|j: int| 0 <= j < s.len() ==> !#[trigger] byte_at(s, c, j),
        },
    decreases s.len(),
{
    if s.len() == 0 {
    } else if s[0] == c {
        assert(byte_at(s, c, 0));
    } else {
        lemma_find1_props(s.drop_first(), c);
        let t = s.drop_first();
        assert(forall|k: int| 0 <= k < t.len() ==> t[k] == s[k + 1]);
        assert(forall|j: int| 1 <= j < s.len() ==> (byte_at(s, c, j) == byte_at(t, c, j - 1)));
        assert(!byte_at(s, c, 0));
    }
}

/// `c` occurs at `i` and nowhere earlier, so `find1` returns `i`.
pub proof fn lemma_find1_eq(s: Seq<u8>, c: u8, i: int)
    requires
        0 <= i < s.len(),
        byte_at(s, c, i),
        forall|j: int| 0 <= j < i ==> !#[trigger] byte_at(s, c, j),
    ensures
        find1(s, c) == Some(i),
{
    lemma_find1_props(s, c);
    match find1(s, c) {
        None => {
            assert(!byte_at(s, c, i));
        },
        Some(k) => {
            if k < i {
                assert(!byte_at(s, c, k));
            } else if k > i {
                assert(!byte_at(s, c, i));
            }
        },
    }
}

/// Scan `s` for the first occurrence of the byte `c`.
pub fn scan1(s: &[u8], c: u8) -> (r: Option<usize>)
    ensures
        match r {
            Some(i) => find1(s@, c) == Some(i as int) && i < s@.len(),
            None => find1(s@, c) is None,
        },
{
    let n = s.len();
    let mut i: usize = 0;
    while i < n
        invariant
            i <= n,
            n == s@.len(),
            forall|j: int| 0 <= j < i ==> !#[trigger] byte_at(s@, c, j),
        decreases n - i,
    {
        if s[i] == c {
            proof {
                assert(byte_at(s@, c, i as int));
                lemma_find1_eq(s@, c, i as int);
            }
            return Some(i);
        }
        proof {
            assert(!byte_at(s@, c, i as int));
        }
        i = i + 1;
    }
    proof {
        lemma_find1_props(s@, c);
        if let Some(k) = find1(s@, c) {
            assert(!byte_at(s@, c, k));
        }
    }
    None
}

/// The four-byte boundary CR LF CR LF starts at index `j` of `s`.
pub open spec fn boundary_at(s: Seq<u8>, j: int) -> bool {
    s[j] == CR && s[j + 1] == LF && s[j + 2] == CR && s[j + 3] == LF
}

/// The index of the first occurrence of CR LF CR LF in `s`.
pub open spec fn find_boundary(s: Seq<u8>) -> Option<int>
    decreases s.len(),
{
    if s.len() < 4 {
        None
    } else if s[0] == CR && s[1] == LF && s[2] == CR && s[3] == LF {
        Some(0)
    } else {
        match find_boundary(s.drop_first()) {
            None => None,
            Some(i) => Some(i + 1),
        }
    }
}

/// `find_boundary` returns the first index at which CR LF CR LF occurs, or
/// `None` when it occurs nowhere.
pub proof fn lemma_find_boundary_props(s: Seq<u8>)
    ensures
        match find_boundary(s) {
            Some(i) => 0 <= i && i + 4 <= s.len() && #[trigger] boundary_at(s, i) && forall|
                j: int,
            | 0 <= j < i ==> !#[trigger] boundary_at(s, j),
            None => forall|j: int| 0 <= j && j + 4 <= s.len() ==> !#[trigger] boundary_at(s, j),
        },
    decreases s.len(),
{
    if s.len() < 4 {
    } else if s[0] == CR && s[1] == LF && s[2] == CR && s[3] == LF {
        assert(boundary_at(s, 0));
    } else {
        lemma_find_boundary_props(s.drop_first());
        let t = s.drop_first();
        assert(forall|k: int| 0 <= k < t.len() ==> t[k] == s[k + 1]);
        assert(forall|j: int|
            1 <= j && j + 4 <= s.len() ==> (boundary_at(s, j) == boundary_at(t, j - 1)));
        assert(!boundary_at(s, 0));
    }
}

/// The boundary occurs at `i` and nowhere earlier, so `find_boundary`
/// returns `i`.
pub proof fn lemma_find_boundary_eq(s: Seq<u8>, i: int)
    requires
        0 <= i,
        i + 4 <= s.len(),
        boundary_at(s, i),
        forall|j: int| 0 <= j < i ==> !#[trigger] boundary_at(s, j),
    ensures
        find_boundary(s) == Some(i),
{
    lemma_find_boundary_props(s);
    match find_boundary(s) {
        None => {
            assert(!boundary_at(s, i));
        },
        Some(k) => {
            if k < i {
                assert(!boundary_at(s, k));
            } else if k > i {
                assert(!boundary_at(s, i));
            }
        },
    }
}

/// Scan `s` for the first occurrence of CR LF CR LF.
pub fn scan_boundary(s: &[u8]) -> (r: Option<usize>)
    ensures
        match r {
            Some(i) => find_boundary(s@) == Some(i as int) && i + 4 <= s@.len(),
            None => find_boundary(s@) is None,
        },
{
    let n = s.len();
    let mut i: usize = 0;
    while n - i >= 4
        invariant
            i <= n,
            n == s@.len(),
            forall|j: int| 0 <= j < i ==> !#[trigger] boundary_at(s@, j),
        decreases n - i,
    {
        if s[i] == CR && s[i + 1] == LF && s[i + 2] == CR && s[i + 3] == LF {
            proof {
                assert(boundary_at(s@, i as int));
                lemma_find_boundary_eq(s@, i as int);
            }
            return Some(i);
        }
        proof {
            assert(!boundary_at(s@, i as int));
        }
        i = i + 1;
    }
    proof {
        lemma_find_boundary_props(s@);
        if let Some(k) = find_boundary(s@) {
            assert(!boundary_at(s@, k));
        }
    }
    None
}

/// `s` with leading ASCII whitespace removed.
pub open spec fn skip_ws_front(s: Seq<u8>) -> Seq<u8>
    decreases s.len(),
{
    if s.len() > 0 && is_ws(s[0]) {
        skip_ws_front(s.drop_first())
    } else {
        s
    }
}

/// `s` with trailing ASCII whitespace removed.
pub open spec fn skip_ws_back(s: Seq<u8>) -> Seq<u8>
    decreases s.len(),
{
    if s.len() > 0 && is_ws(s.last()) {
        skip_ws_back(s.drop_last())
    } else {
        s
    }
}

/// `s` with leading and trailing ASCII whitespace removed.
pub open spec fn trim(s: Seq<u8>) -> Seq<u8> {
    skip_ws_back(skip_ws_front(s))
}

/// Trimming does nothing to a sequence whose first and last bytes are not
/// whitespace.
pub proof fn lemma_trim_noop(s: Seq<u8>)
    requires
        s.len() > 0 ==> !is_ws(s[0]) && !is_ws(s.last()),
    ensures
        trim(s) == s,
{
}

/// The bounds of `trim(s@)` within `s`: `trim(s@) == s@.subrange(lo, hi)`.
pub fn trim_bounds(s: &[u8]) -> (r: (usize, usize))
    ensures
        r.0 <= r.1 <= s@.len(),
        trim(s@) == s@.subrange(r.0 as int, r.1 as int),
{
    let n = s.len();
    let mut lo: usize = 0;
    proof {
        assert(s@.subrange(0, n as int) =~= s@);
    }
    while lo < n && is_ws_exec(s[lo])
        invariant
            lo <= n,
            n == s@.len(),
            skip_ws_front(s@) == skip_ws_front(s@.subrange(lo as int, n as int)),
        decreases n - lo,
    {
        proof {
            let t = s@.subrange(lo as int, n as int);
            assert(t[0] == s@[lo as int]);
            assert(t.drop_first() =~= s@.subrange(lo as int + 1, n as int));
            assert(skip_ws_front(t) == skip_ws_front(t.drop_first()));
        }
        lo = lo + 1;
    }
    proof {
        let t = s@.subrange(lo as int, n as int);
        if lo < n {
            assert(!is_ws(t[0]));
        }
        assert(skip_ws_front(s@) == t);
    }
    let mut hi: usize = n;
    while hi > lo && is_ws_exec(s[hi - 1])
        invariant
            lo <= hi <= n,
            n == s@.len(),
            skip_ws_front(s@) == s@.subrange(lo as int, n as int),
            skip_ws_back(s@.subrange(lo as int, n as int)) == skip_ws_back(
                s@.subrange(lo as int, hi as int),
            ),
        decreases hi,
    {
        proof {
            let t = s@.subrange(lo as int, hi as int);
            assert(t.last() == s@[hi - 1]);
            assert(t.drop_last() =~= s@.subrange(lo as int, hi as int - 1));
        }
        hi = hi - 1;
    }
    proof {
        let t = s@.subrange(lo as int, hi as int);
        if hi > lo {
            assert(t.last() == s@[hi - 1]);
            assert(!is_ws(t.last()));
        }
        assert(skip_ws_back(s@.subrange(lo as int, n as int)) == t);
    }
    (lo, hi)
}

/// Executable test for ASCII whitespace.
pub fn is_ws_exec(b: u8) -> (r: bool)
    ensures
        r == is_ws(b),
{
    b == SP || b == TAB || b == CR || b == LF
}

/// One step of whitespace tokenization: `cur` is the token being read and
/// `acc` the tokens already produced.
pub open spec fn ws_split(s: Seq<u8>, cur: Seq<u8>, acc: Seq<Seq<u8>>) -> Seq<Seq<u8>>
    decreases s.len(),
{
    if s.len() == 0 {
        if cur.len() == 0 {
            acc
        } else {
            acc.push(cur)
        }
    } else if is_ws(s[0]) {
        if cur.len() == 0 {
            ws_split(s.drop_first(), Seq::empty(), acc)
        } else {
            ws_split(s.drop_first(), Seq::empty(), acc.push(cur))
        }
    } else {
        ws_split(s.drop_first(), cur.push(s[0]), acc)
    }
}

/// The maximal whitespace-free tokens of `s`, in order.
pub open spec fn ws_tokens(s: Seq<u8>) -> Seq<Seq<u8>> {
    ws_split(s, Seq::empty(), Seq::empty())
}

/// The views of a sequence of byte vectors.
pub open spec fn seq_views(q: Seq<Vec<u8>>) -> Seq<Seq<u8>> {
    q.map_values(|v: Vec<u8>| v@)
}

/// Split `s` into its maximal whitespace-free tokens.
pub fn tokenize_ws(s: &[u8]) -> (toks: Vec<Vec<u8>>)
    ensures
        seq_views(toks@) == ws_tokens(s@),
{
    let n = s.len();
    let mut toks: Vec<Vec<u8>> = Vec::new();
    let mut cur: Vec<u8> = Vec::new();
    let mut i: usize = 0;
    proof {
        assert(seq_views(toks@) =~= Seq::<Seq<u8>>::empty());
        assert(s@.subrange(0, n as int) =~= s@);
    }
    while i < n
        invariant
            i <= n,
            n == s@.len(),
            ws_tokens(s@) == ws_split(s@.subrange(i as int, n as int), cur@, seq_views(toks@)),
        decreases n - i,
    {
        let ghost pre_toks = toks@;
        let ghost pre_cur = cur@;
        let ghost t = s@.subrange(i as int, n as int);
        proof {
            assert(t[0] == s@[i as int]);
            assert(t.drop_first() =~= s@.subrange(i as int + 1, n as int));
        }
        if is_ws_exec(s[i]) {
            if cur.len() > 0 {
                let done = cur;
                cur = Vec::new();
                toks.push(done);
                proof {
                    assert(cur@ =~= Seq::<u8>::empty());
                    assert(seq_views(toks@) =~= seq_views(pre_toks).push(pre_cur));
                    assert(ws_split(t, pre_cur, seq_views(pre_toks)) == ws_split(
                        t.drop_first(),
                        Seq::empty(),
                        seq_views(pre_toks).push(pre_cur),
                    ));
                }
            } else {
                proof {
                    assert(pre_cur =~= Seq::<u8>::empty());
                    assert(ws_split(t, pre_cur, seq_views(pre_toks)) == ws_split(
                        t.drop_first(),
                        Seq::empty(),
                        seq_views(pre_toks),
                    ));
                    assert(cur@ =~= Seq::<u8>::empty());
                }
            }
        } else {
            cur.push(s[i]);
            proof {
                assert(cur@ =~= pre_cur.push(t[0]));
                assert(ws_split(t, pre_cur, seq_views(pre_toks)) == ws_split(
                    t.drop_first(),
                    pre_cur.push(t[0]),
                    seq_views(pre_toks),
                ));
            }
        }
        i = i + 1;
    }
    let ghost pre_toks = toks@;
    let ghost pre_cur = cur@;
    proof {
        assert(s@.subrange(n as int, n as int) =~= Seq::<u8>::empty());
    }
    if cur.len() > 0 {
        let done = cur;
        toks.push(done);
        proof {
            assert(seq_views(toks@) =~= seq_views(pre_toks).push(pre_cur));
        }
    } else {
        proof {
            assert(pre_cur =~= Seq::<u8>::empty());
        }
    }
    toks
}

/// Reading a whitespace-free block extends the current token.
pub proof fn lemma_ws_split_token(t: Seq<u8>, rest: Seq<u8>, cur: Seq<u8>, acc: Seq<Seq<u8>>)
    requires
        forall|i: int| 0 <= i < t.len() ==> !is_ws(#[trigger] t[i]),
    ensures
        ws_split(t + rest, cur, acc) == ws_split(rest, cur + t, acc),
    decreases t.len(),
{
    if t.len() == 0 {
        assert(t + rest =~= rest);
        assert(cur + t =~= cur);
    } else {
        let s = t + rest;
        assert(s[0] == t[0]);
        assert(!is_ws(s[0]));
        assert(s.drop_first() =~= t.drop_first() + rest);
        lemma_ws_split_token(t.drop_first(), rest, cur.push(t[0]), acc);
        assert(cur.push(t[0]) + t.drop_first() =~= cur + t);
    }
}

/// The request line `m SP u SP v` tokenizes into exactly `[m, u, v]` when
/// the three tokens are nonempty and free of whitespace.
pub proof fn lemma_ws_tokens_three(m: Seq<u8>, u: Seq<u8>, v: Seq<u8>)
    requires
        m.len() > 0,
        u.len() > 0,
        v.len() > 0,
        forall|i: int| 0 <= i < m.len() ==> !is_ws(#[trigger] m[i]),
        forall|i: int| 0 <= i < u.len() ==> !is_ws(#[trigger] u[i]),
        forall|i: int| 0 <= i < v.len() ==> !is_ws(#[trigger] v[i]),
    ensures
        ws_tokens(m + seq![SP] + u + seq![SP] + v) == seq![m, u, v],
{
    let s = m + seq![SP] + u + seq![SP] + v;
    let s1 = seq![SP] + u + seq![SP] + v;
    let s2 = u + seq![SP] + v;
    let s3 = seq![SP] + v;
    let e = Seq::<u8>::empty();
    let ea = Seq::<Seq<u8>>::empty();
    assert(s =~= m + (s1));
    lemma_ws_split_token(m, s1, e, ea);
    assert(e + m =~= m);
    // s1 starts with a space and the current token `m` is nonempty.
    assert(s1[0] == SP);
    assert(s1.drop_first() =~= s2);
    assert(ws_split(s1, m, ea) == ws_split(s2, e, ea.push(m)));
    lemma_ws_split_token(u, s3, e, ea.push(m));
    assert(s2 =~= u + s3);
    assert(e + u =~= u);
    assert(s3[0] == SP);
    assert(s3.drop_first() =~= v);
    assert(ws_split(s3, u, ea.push(m)) == ws_split(v, e, ea.push(m).push(u)));
    lemma_ws_split_token(v, e, e, ea.push(m).push(u));
    assert(v + e =~= v);
    assert(e + v =~= v);
    assert(ws_split(e, v, ea.push(m).push(u)) == ea.push(m).push(u).push(v));
    assert(ea.push(m).push(u).push(v) =~= seq![m, u, v]);
}

/// Every byte of `s` is an ASCII decimal digit.
pub open spec fn all_digits(s: Seq<u8>) -> bool {
    forall|i: int| 0 <= i < s.len() ==> is_digit(#[trigger] s[i])
}

/// The numeric value of `s` read as a big-endian decimal numeral.
pub open spec fn dec_val(s: Seq<u8>) -> int
    decreases s.len(),
{
    if s.len() == 0 {
        0
    } else {
        dec_val(s.drop_last()) * 10 + (s.last() - D0)
    }
}

/// `Content-Length` values parse as a nonempty all-digit numeral that fits
/// in `usize`; anything else is rejected.
pub open spec fn parse_dec(s: Seq<u8>) -> Option<int> {
    if s.len() > 0 && all_digits(s) && dec_val(s) <= usize::MAX {
        Some(dec_val(s))
    } else {
        None
    }
}

/// The canonical decimal numeral of the non-negative integer `n`.
pub open spec fn dec_bytes(n: int) -> Seq<u8>
    decreases n,
{
    if n < 10 {
        seq![(D0 + if n >= 0 { n } else { 0 }) as u8]
    } else {
        dec_bytes(n / 10).push((D0 + n % 10) as u8)
    }
}

/// A numeral's value is non-negative.
pub proof fn lemma_dec_val_nonneg(s: Seq<u8>)
    requires
        all_digits(s),
    ensures
        dec_val(s) >= 0,
    decreases s.len(),
{
    if s.len() > 0 {
        assert(all_digits(s.drop_last())) by {
            assert(forall|i: int| 0 <= i < s.len() - 1 ==> s.drop_last()[i] == s[i]);
        }
        lemma_dec_val_nonneg(s.drop_last());
    }
}

/// The canonical numeral of `n` consists of digits and reads back as `n`.
pub proof fn lemma_dec_bytes_val(n: int)
    requires
        n >= 0,
    ensures
        dec_bytes(n).len() >= 1,
        all_digits(dec_bytes(n)),
        dec_val(dec_bytes(n)) == n,
    decreases n,
{
    if n < 10 {
        let s = dec_bytes(n);
        assert(s.drop_last() =~= Seq::<u8>::empty());
        assert(dec_val(s) == dec_val(s.drop_last()) * 10 + (s.last() - D0));
    } else {
        lemma_dec_bytes_val(n / 10);
        vstd::arithmetic::div_mod::lemma_fundamental_div_mod(n, 10);
        let s = dec_bytes(n);
        assert(s.drop_last() =~= dec_bytes(n / 10));
        assert(s.last() == (D0 + n % 10) as u8);
        assert(dec_val(s) == dec_val(dec_bytes(n / 10)) * 10 + (s.last() - D0));
        assert(forall|i: int|
            0 <= i < s.len() ==> is_digit(#[trigger] s[i]) == (if i < s.len() - 1 {
                is_digit(dec_bytes(n / 10)[i])
            } else {
                is_digit((D0 + n % 10) as u8)
            }));
    }
}

/// Extending a numeral to the right can only increase its value.
pub proof fn lemma_dec_val_prefix_le(s: Seq<u8>, i: int, j: int)
    requires
        all_digits(s.subrange(0, j)),
        0 <= i <= j <= s.len(),
    ensures
        dec_val(s.subrange(0, i)) <= dec_val(s.subrange(0, j)),
    decreases j - i,
{
    if i < j {
        let p = s.subrange(0, j - 1);
        let q = s.subrange(0, j);
        assert(q.drop_last() =~= p);
        assert(all_digits(p)) by {
            assert(forall|k: int| 0 <= k < p.len() ==> p[k] == q[k]);
        }
        lemma_dec_val_prefix_le(s, i, j - 1);
        lemma_dec_val_nonneg(p);
        assert(is_digit(q[j - 1]));
        assert(q.last() == q[j - 1]);
        assert(dec_val(q) == dec_val(p) * 10 + (q.last() - D0));
        assert(dec_val(p) * 10 >= dec_val(p)) by (nonlinear_arith)
            requires
                dec_val(p) >= 0,
        ;
    }
}

/// Parse `s` as a decimal numeral that fits in `usize`.
pub fn parse_dec_exec(s: &[u8]) -> (r: Option<usize>)
    ensures
        match r {
            Some(v) => parse_dec(s@) == Some(v as int),
            None => parse_dec(s@) is None,
        },
{
    let n = s.len();
    if n == 0 {
        return None;
    }
    let mut val: usize = 0;
    let mut i: usize = 0;
    proof {
        assert(s@.subrange(0, 0) =~= Seq::<u8>::empty());
    }
    while i < n
        invariant
            i <= n,
            n == s@.len(),
            all_digits(s@.subrange(0, i as int)),
            val == dec_val(s@.subrange(0, i as int)),
        decreases n - i,
    {
        let ghost p = s@.subrange(0, i as int);
        let b = s[i];
        if b < D0 || b > 57 {
            proof {
                assert(!is_digit(s@[i as int]));
            }
            return None;
        }
        let d = b - D0;
        let lim = (usize::MAX - d as usize) / 10;
        proof {
            assert(s@.subrange(0, i as int + 1).drop_last() =~= p);
            assert(all_digits(s@.subrange(0, i as int + 1)));
        }
        if val > lim {
            proof {
                let q = s@.subrange(0, i as int + 1);
                assert(dec_val(q) == (val as int) * 10 + d);
                assert((val as int) * 10 + d > usize::MAX) by (nonlinear_arith)
                    requires
                        val > (usize::MAX - d as usize) / 10,
                        0 <= d <= 9,
                ;
                assert(s@.subrange(0, n as int) =~= s@);
                if all_digits(s@) {
                    lemma_dec_val_prefix_le(s@, i as int + 1, n as int);
                    assert(dec_val(s@) > usize::MAX);
                }
            }
            return None;
        }
        proof {
            assert((val as int) * 10 + d <= usize::MAX) by (nonlinear_arith)
                requires
                    val <= (usize::MAX - d as usize) / 10,
                    0 <= d <= 9,
            ;
        }
        val = val * 10 + d as usize;
        i = i + 1;
    }
    proof {
        assert(s@.subrange(0, n as int) =~= s@);
    }
    Some(val)
}

/// Render `n` as its canonical decimal numeral.
pub fn dec_render(n: usize) -> (r: Vec<u8>)
    ensures
        r@ == dec_bytes(n as int),
{
    let mut r: Vec<u8> = Vec::new();
    if n < 10 {
        r.push(D0 + (n as u8));
        proof {
            assert(r@ =~= dec_bytes(n as int));
        }
        return r;
    }
    let mut cur = n;
    while cur > 0
        invariant
            cur >= 0,
            if cur > 0 {
                dec_bytes(n as int) =~= dec_bytes(cur as int) + r@
            } else {
                dec_bytes(n as int) =~= r@
            },
        decreases cur,
    {
        let ghost pre = r@;
        let d = (cur % 10) as u8;
        r.insert(0, D0 + d);
        proof {
            assert(r@ =~= seq![(D0 + d) as u8] + pre);
        }
        let next = cur / 10;
        proof {
            if next > 0 {
                assert(dec_bytes(cur as int) == dec_bytes(cur as int / 10).push(
                    (D0 + cur as int % 10) as u8,
                ));
                assert(dec_bytes(cur as int) =~= dec_bytes(next as int) + seq![(D0 + d) as u8]);
                assert(dec_bytes(n as int) =~= dec_bytes(next as int) + r@);
            } else {
                assert(cur < 10);
                assert(dec_bytes(cur as int) =~= seq![(D0 + d) as u8]);
                assert(dec_bytes(n as int) =~= r@);
            }
        }
        cur = next;
    }
    r
}

/// Append all of `src` to `dst`.
pub fn push_bytes(dst: &mut Vec<u8>, src: &[u8])
    ensures
        final(dst)@ == old(dst)@ + src@,
{
    let n = src.len();
    let mut i: usize = 0;
    proof {
        assert(dst@ =~= old(dst)@ + src@.subrange(0, 0));
    }
    while i < n
        invariant
            i <= n,
            n == src@.len(),
            dst@ == old(dst)@ + src@.subrange(0, i as int),
        decreases n - i,
    {
        dst.push(src[i]);
        proof {
            assert(dst@ =~= old(dst)@ + src@.subrange(0, i as int + 1));
        }
        i = i + 1;
    }
    proof {
        assert(src@.subrange(0, n as int) =~= src@);
    }
}

/// Copy the bytes of `s` between `a` and `b` into a fresh vector.
pub fn copy_range(s: &[u8], a: usize, b: usize) -> (r: Vec<u8>)
    requires
        a <= b <= s@.len(),
    ensures
        r@ == s@.subrange(a as int, b as int),
{
    let mut r: Vec<u8> = Vec::new();
    let mut i: usize = a;
    proof {
        assert(r@ =~= s@.subrange(a as int, a as int));
    }
    while i < b
        invariant
            a <= i <= b <= s@.len(),
            r@ == s@.subrange(a as int, i as int),
        decreases b - i,
    {
        r.push(s[i]);
        proof {
            assert(r@ =~= s@.subrange(a as int, i as int + 1));
        }
        i = i + 1;
    }
    r
}

/// Byte-wise equality of two slices.
pub fn bytes_eq(x: &[u8], y: &[u8]) -> (r: bool)
    ensures
        r == (x@ == y@),
{
    let n = x.len();
    if n != y.len() {
        proof {
            assert(x@ != y@);
        }
        return false;
    }
    let mut i: usize = 0;
    while i < n
        invariant
            i <= n,
            n == x@.len() == y@.len(),
            forall|j: int| 0 <= j < i ==> x@[j] == y@[j],
        decreases n - i,
    {
        if x[i] != y[i] {
            return false;
        }
        i = i + 1;
    }
    proof {
        assert(x@ =~= y@);
    }
    true
}

} // verus!

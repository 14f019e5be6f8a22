use vstd::prelude::*;

verus! {

// ---------------------------------------------------------------------------
// Searching a byte sequence for a pattern
// ---------------------------------------------------------------------------

/// The pattern `p` occurs in `s` at position `i`.
pub open spec fn match_at(s: Seq<u8>, p: Seq<u8>, i: int) -> bool {
    0 <= i && i + p.len() <= s.len() && s.subrange(i, i + p.len() as int) == p
}

/// The pattern `p` occurs somewhere in `s`.
pub open spec fn contains_seq(s: Seq<u8>, p: Seq<u8>) -> bool {
    exists|i: int| match_at(s, p, i)
}

/// Position of the first occurrence of `p` in `s`, if any.
pub open spec fn spec_find(s: Seq<u8>, p: Seq<u8>) -> Option<int>
    decreases s.len(),
{
    if p.len() == 0 {
        Some(0)
    } else if s.len() < p.len() {
        None
    } else if s.subrange(0, p.len() as int) == p {
        Some(0)
    } else {
        match spec_find(s.skip(1), p) {
            None => None,
            Some(i) => Some(i + 1),
        }
    }
}

/// `spec_find` returns the first match: a `Some` is a match with none before
/// it, and a `None` means no position matches at all.
pub proof fn lemma_spec_find(s: Seq<u8>, p: Seq<u8>)
    requires
        p.len() >= 1,
    ensures
        match spec_find(s, p) {
            Some(i) => match_at(s, p, i) && (forall|j: int| 0 <= j < i ==> !match_at(s, p, j)),
            None => forall|j: int| !match_at(s, p, j),
        },
    decreases s.len(),
{
    if s.len() < p.len() {
        assert forall|j: int| !match_at(s, p, j) by {}
    } else if s.subrange(0, p.len() as int) == p {
    } else {
        lemma_spec_find(s.skip(1), p);
        assert forall|j: int| 1 <= j && j + p.len() <= s.len() implies
            (match_at(s, p, j) <==> match_at(s.skip(1), p, j - 1)) by {
            assert(s.skip(1).subrange(j - 1, j - 1 + p.len() as int) =~= s.subrange(
                j,
                j + p.len() as int,
            ));
        }
        match spec_find(s.skip(1), p) {
            None => {
                assert forall|j: int| !match_at(s, p, j) by {
                    if 1 <= j && j + p.len() <= s.len() {
                        assert(!match_at(s.skip(1), p, j - 1));
                    }
                }
            },
            Some(i) => {
                assert(match_at(s.skip(1), p, i));
                assert(match_at(s, p, i + 1));
                assert forall|j: int| 0 <= j < i + 1 implies !match_at(s, p, j) by {
                    if j == 0 {
                        assert(!match_at(s, p, 0));
                    } else {
                        assert(!match_at(s.skip(1), p, j - 1));
                    }
                }
            },
        }
    }
}

/// A found occurrence implies `contains_seq`; `None` refutes it.
pub proof fn lemma_find_contains(s: Seq<u8>, p: Seq<u8>)
    requires
        p.len() >= 1,
    ensures
        contains_seq(s, p) <==> spec_find(s, p) is Some,
{
    lemma_spec_find(s, p);
    match spec_find(s, p) {
        Some(i) => {
            assert(match_at(s, p, i));
        },
        None => {},
    }
}

/// Does `p` occur in `s` starting exactly at `i`?
pub fn is_match_at(s: &Vec<u8>, p: &Vec<u8>, i: usize) -> (b: bool)
    requires
        i + p@.len() <= s@.len(),
    ensures
        b == match_at(s@, p@, i as int),
{
    let slen = s.len();
    let plen = p.len();
    let mut j: usize = 0;
    while j < plen
        invariant
            slen == s@.len(),
            plen == p@.len(),
            i + plen <= slen,
            0 <= j <= plen,
            forall|k: int| 0 <= k < j ==> s@[i + k] == p@[k],
        decreases plen - j,
    {
        if s[i + j] != p[j] {
            assert(s@.subrange(i as int, i + p@.len() as int)[j as int] == s@[i + j]);
            return false;
        }
        j += 1;
    }
    assert(s@.subrange(i as int, i + p@.len() as int) =~= p@);
    true
}

/// First occurrence of `p` in `s`, as an index.
pub fn find_sub(s: &Vec<u8>, p: &Vec<u8>) -> (r: Option<usize>)
    requires
        p@.len() >= 1,
    ensures
        match r {
            Some(i) => spec_find(s@, p@) == Some(i as int),
            None => spec_find(s@, p@) == None::<int>,
        },
{
    proof {
        lemma_spec_find(s@, p@);
    }
    if s.len() < p.len() {
        return None;
    }
    let slen = s.len();
    let plen = p.len();
    let end = slen - plen;
    let mut i: usize = 0;
    while i <= end
        invariant
            slen == s@.len(),
            plen == p@.len(),
            plen >= 1,
            end == slen - plen,
            0 <= i <= end + 1,
            forall|j: int| 0 <= j < i ==> !match_at(s@, p@, j),
        decreases end + 1 - i,
    {
        if is_match_at(s, p, i) {
            proof {
                lemma_spec_find(s@, p@);
                match spec_find(s@, p@) {
                    Some(k) => {
                        assert(!(k < i) && !(i < k));
                    },
                    None => {
                        assert(match_at(s@, p@, i as int));
                    },
                }
            }
            return Some(i);
        }
        i += 1;
    }
    proof {
        lemma_spec_find(s@, p@);
        match spec_find(s@, p@) {
            Some(k) => {
                assert(!match_at(s@, p@, k));
            },
            None => {},
        }
    }
    None
}

// ---------------------------------------------------------------------------
// Prefixes, equality, extraction
// ---------------------------------------------------------------------------

/// `p` is a prefix of `s`.
pub open spec fn is_prefix(s: Seq<u8>, p: Seq<u8>) -> bool {
    p.len() <= s.len() && s.subrange(0, p.len() as int) == p
}

/// Does `s` start with `p`?
pub fn starts_with(s: &Vec<u8>, p: &Vec<u8>) -> (b: bool)
    ensures
        b == is_prefix(s@, p@),
{
    if p.len() > s.len() {
        return false;
    }
    is_match_at(s, p, 0)
}

/// Byte-for-byte equality of two byte vectors.
pub fn bytes_eq(a: &Vec<u8>, b: &Vec<u8>) -> (r: bool)
    ensures
        r == (a@ == b@),
{
    if a.len() != b.len() {
        return false;
    }
    let mut j: usize = 0;
    while j < a.len()
        invariant
            a@.len() == b@.len(),
            0 <= j <= a@.len(),
            forall|k: int| 0 <= k < j ==> a@[k] == b@[k],
        decreases a@.len() - j,
    {
        if a[j] != b[j] {
            return false;
        }
        j += 1;
    }
    assert(a@ =~= b@);
    true
}

/// Copy of `s[a..b]`.
pub fn subvec(s: &Vec<u8>, a: usize, b: usize) -> (r: Vec<u8>)
    requires
        a <= b <= s@.len(),
    ensures
        r@ == s@.subrange(a as int, b as int),
{
    let mut r: Vec<u8> = Vec::new();
    let mut j: usize = a;
    while j < b
        invariant
            a <= j <= b <= s@.len(),
            r@ == s@.subrange(a as int, j as int),
        decreases b - j,
    {
        r.push(s[j]);
        assert(r@ =~= s@.subrange(a as int, j + 1 as int));
        j += 1;
    }
    r
}

// ---------------------------------------------------------------------------
// Splitting on a separator and joining with it
// ---------------------------------------------------------------------------

/// The pieces of `s` between occurrences of the separator `p`, in order.
/// A sequence with no occurrence is a single piece; separators at the ends
/// or next to each other give empty pieces.
pub open spec fn split_on(s: Seq<u8>, p: Seq<u8>) -> Seq<Seq<u8>>
    decreases s.len(),
{
    if p.len() == 0 || s.len() < p.len() {
        seq![s]
    } else if s.subrange(0, p.len() as int) == p {
        seq![Seq::<u8>::empty()] + split_on(s.skip(p.len() as int), p)
    } else {
        let rest = split_on(s.skip(1), p);
        seq![seq![s[0]] + rest[0]] + rest.skip(1)
    }
}

/// Splitting always yields at least one piece.
pub proof fn lemma_split_on_len(s: Seq<u8>, p: Seq<u8>)
    ensures
        split_on(s, p).len() >= 1,
    decreases s.len(),
{
    if p.len() == 0 || s.len() < p.len() {
    } else if s.subrange(0, p.len() as int) == p {
    } else {
        lemma_split_on_len(s.skip(1), p);
    }
}

/// `split_on` peels off the piece before the first occurrence of the
/// separator, and recurses on what follows it.
pub proof fn lemma_split_on_first(s: Seq<u8>, p: Seq<u8>)
    requires
        p.len() >= 1,
    ensures
        match spec_find(s, p) {
            None => split_on(s, p) == seq![s],
            Some(i) => split_on(s, p) == seq![s.subrange(0, i)] + split_on(
                s.skip(i + p.len() as int),
                p,
            ),
        },
    decreases s.len(),
{
    if s.len() < p.len() {
    } else if s.subrange(0, p.len() as int) == p {
        assert(s.subrange(0, 0) =~= Seq::<u8>::empty());
        assert(seq![Seq::<u8>::empty()] =~= seq![s.subrange(0, 0)]);
    } else {
        lemma_split_on_first(s.skip(1), p);
        lemma_split_on_len(s.skip(1), p);
        let rest = split_on(s.skip(1), p);
        match spec_find(s.skip(1), p) {
            None => {
                assert(spec_find(s, p) == None::<int>);
                assert(rest == seq![s.skip(1)]);
                assert(seq![s[0]] + rest[0] =~= s);
                assert(rest.skip(1) =~= Seq::<Seq<u8>>::empty());
                assert(split_on(s, p) =~= seq![s]);
            },
            Some(i) => {
                assert(spec_find(s, p) == Some(i + 1));
                lemma_spec_find(s.skip(1), p);
                assert(match_at(s.skip(1), p, i));
                let tail = split_on(s.skip(1).skip(i + p.len() as int), p);
                assert(rest == seq![s.skip(1).subrange(0, i)] + tail);
                assert(rest[0] == s.skip(1).subrange(0, i));
                assert(seq![s[0]] + s.skip(1).subrange(0, i) =~= s.subrange(0, i + 1));
                assert(s.skip(1).skip(i + p.len() as int) =~= s.skip(i + 1 + p.len() as int));
                assert(rest.skip(1) =~= tail);
                assert(split_on(s, p) =~= seq![s.subrange(0, i + 1)] + split_on(
                    s.skip(i + 1 + p.len() as int),
                    p,
                ));
            },
        }
    }
}

/// The pieces joined in order, with `p` between each two neighbours.
pub open spec fn join_with(pieces: Seq<Seq<u8>>, p: Seq<u8>) -> Seq<u8>
    decreases pieces.len(),
{
    if pieces.len() == 0 {
        Seq::<u8>::empty()
    } else if pieces.len() == 1 {
        pieces[0]
    } else {
        pieces[0] + p + join_with(pieces.skip(1), p)
    }
}

/// Joining after appending one more piece appends a separator and the piece.
pub proof fn lemma_join_with_push(pieces: Seq<Seq<u8>>, p: Seq<u8>, x: Seq<u8>)
    ensures
        pieces.len() == 0 ==> join_with(pieces.push(x), p) == x,
        pieces.len() >= 1 ==> join_with(pieces.push(x), p) == join_with(pieces, p) + p + x,
    decreases pieces.len(),
{
    if pieces.len() == 0 {
        assert(pieces.push(x)[0] == x);
    } else if pieces.len() == 1 {
        assert(pieces.push(x).skip(1) =~= seq![x]);
        assert(pieces.push(x)[0] == pieces[0]);
        assert(join_with(pieces.push(x), p) == pieces.push(x)[0] + p + join_with(
            pieces.push(x).skip(1),
            p,
        ));
        assert(join_with(seq![x], p) == seq![x][0]);
        assert(join_with(pieces.push(x), p) == pieces[0] + p + x);
    } else {
        lemma_join_with_push(pieces.skip(1), p, x);
        assert(pieces.push(x).skip(1) =~= pieces.skip(1).push(x));
        assert(join_with(pieces.push(x), p) == pieces[0] + p + join_with(
            pieces.skip(1).push(x),
            p,
        ));
        assert((pieces[0] + p + (join_with(pieces.skip(1), p) + p + x)) =~= (pieces[0] + p
            + join_with(pieces.skip(1), p)) + p + x);
    }
}

/// Split the byte vector `s` on every occurrence of `p`.
pub fn split_vec(s: &Vec<u8>, p: &Vec<u8>) -> (r: Vec<Vec<u8>>)
    requires
        p@.len() >= 1,
    ensures
        r.deep_view() == split_on(s@, p@),
{
    let mut pieces: Vec<Vec<u8>> = Vec::new();
    let mut remaining: Vec<u8> = subvec(s, 0, s.len());
    proof {
        assert(remaining@ =~= s@);
    }
    loop
        invariant
            p@.len() >= 1,
            pieces.deep_view() + split_on(remaining@, p@) == split_on(s@, p@),
        decreases remaining@.len(),
    {
        proof {
            lemma_split_on_first(remaining@, p@);
            lemma_split_on_len(remaining@, p@);
        }
        match find_sub(&remaining, p) {
            Some(i) => {
                proof {
                    lemma_spec_find(remaining@, p@);
                    assert(match_at(remaining@, p@, i as int));
                }
                let rlen = remaining.len();
                let plen = p.len();
                let piece = subvec(&remaining, 0, i);
                let ghost prev = pieces.deep_view();
                pieces.push(piece);
                let next = subvec(&remaining, i + plen, rlen);
                proof {
                    assert(next@ =~= remaining@.skip(i + p@.len() as int));
                    assert(pieces.deep_view() =~~= prev.push(piece@));
                    assert(prev.push(piece@) + split_on(next@, p@) =~~= prev + (seq![piece@]
                        + split_on(next@, p@)));
                    assert(pieces.deep_view() + split_on(next@, p@) =~~= split_on(s@, p@));
                }
                remaining = next;
            },
            None => {
                let ghost prev = pieces.deep_view();
                let ghost last = remaining@;
                pieces.push(remaining);
                proof {
                    assert(pieces.deep_view() =~~= prev.push(last));
                    assert(prev.push(last) =~~= prev + seq![last]);
                    assert(pieces.deep_view() =~~= split_on(s@, p@));
                }
                return pieces;
            },
        }
    }
}

/// Join the byte vectors in `pieces` with the separator `p` between them.
pub fn join_vec(pieces: &Vec<Vec<u8>>, p: &Vec<u8>) -> (r: Vec<u8>)
    ensures
        r@ == join_with(pieces.deep_view(), p@),
{
    let mut r: Vec<u8> = Vec::new();
    let mut i: usize = 0;
    while i < pieces.len()
        invariant
            0 <= i <= pieces@.len(),
            r@ == join_with(pieces.deep_view().take(i as int), p@),
        decreases pieces@.len() - i,
    {
        if i > 0 {
            let mut sep = subvec(p, 0, p.len());
            proof {
                assert(sep@ =~= p@);
            }
            r.append(&mut sep);
        }
        let mut piece = subvec(&pieces[i], 0, pieces[i].len());
        proof {
            assert(piece@ =~= pieces.deep_view()[i as int]);
        }
        r.append(&mut piece);
        proof {
            lemma_join_with_push(pieces.deep_view().take(i as int), p@, pieces.deep_view()[i as int]);
            assert(pieces.deep_view().take(i + 1) =~= pieces.deep_view().take(i as int).push(
                pieces.deep_view()[i as int],
            ));
        }
        i += 1;
    }
    proof {
        assert(pieces.deep_view().take(pieces@.len() as int) =~= pieces.deep_view());
    }
    r
}

// ---------------------------------------------------------------------------
// The CRLF separator, and the split/join round trip on it
// ---------------------------------------------------------------------------

/// The line separator of the wire protocol.
pub open spec fn crlf() -> Seq<u8> {
    seq![13u8, 10u8]
}

/// A fresh vector holding one CRLF.
pub fn crlf_vec() -> (r: Vec<u8>)
    ensures
        r@ == crlf(),
{
    let mut r: Vec<u8> = Vec::new();
    r.push(13);
    r.push(10);
    proof {
        assert(r@ =~= crlf());
    }
    r
}

/// Splitting on CRLF undoes joining with CRLF, as long as no piece holds a
/// CRLF of its own. The two bytes of the separator differ, so no occurrence
/// can straddle a piece boundary.
pub proof fn lemma_split_join_crlf(pieces: Seq<Seq<u8>>)
    requires
        pieces.len() >= 1,
        forall|k: int| 0 <= k < pieces.len() ==> !contains_seq(#[trigger] pieces[k], crlf()),
    ensures
        split_on(join_with(pieces, crlf()), crlf()) == pieces,
    decreases pieces.len(),
{
    let p = crlf();
    let s = join_with(pieces, p);
    if pieces.len() == 1 {
        lemma_find_contains(s, p);
        lemma_split_on_first(s, p);
        assert(seq![pieces[0]] =~= pieces);
    } else {
        let n = pieces[0].len() as int;
        let rest = join_with(pieces.skip(1), p);
        assert(s == pieces[0] + p + rest);
        assert(s.len() == n + 2 + rest.len());
        assert(match_at(s, p, n)) by {
            assert(s.subrange(n, n + 2) =~= p);
        }
        assert forall|j: int| 0 <= j < n implies !match_at(s, p, j) by {
            if j + 2 <= n {
                if match_at(s, p, j) {
                    assert(pieces[0].subrange(j, j + 2) =~= s.subrange(j, j + 2));
                    assert(match_at(pieces[0], p, j));
                    assert(contains_seq(pieces[0], p));
                }
            } else {
                assert(j == n - 1);
                assert(s[j + 1] == 13);
                if match_at(s, p, j) {
                    assert(s.subrange(j, j + 2)[1] == s[j + 1]);
                }
            }
        }
        lemma_spec_find(s, p);
        match spec_find(s, p) {
            None => {
                assert(match_at(s, p, n));
                assert(false);
            },
            Some(i0) => {
                assert(i0 == n);
                lemma_split_on_first(s, p);
                assert(s.subrange(0, n) =~= pieces[0]);
                assert(s.skip(n + 2) =~= rest);
                lemma_split_join_crlf(pieces.skip(1));
                assert(split_on(s, p) == seq![pieces[0]] + pieces.skip(1));
                assert(seq![pieces[0]] + pieces.skip(1) =~= pieces);
            },
        }
    }
}

/// `s` holds no carriage return and no line feed at all.
pub open spec fn crlf_free(s: Seq<u8>) -> bool {
    forall|i: int| 0 <= i < s.len() ==> s[i] != 13 && s[i] != 10
}

/// A sequence free of CR and LF cannot hold a CRLF.
pub proof fn lemma_crlf_free_no_crlf(s: Seq<u8>)
    requires
        crlf_free(s),
    ensures
        !contains_seq(s, crlf()),
{
    if contains_seq(s, crlf()) {
        let i = choose|i: int| match_at(s, crlf(), i);
        assert(s.subrange(i, i + 2)[0] == s[i]);
    }
}

// ---------------------------------------------------------------------------
// Trimming surrounding whitespace
// ---------------------------------------------------------------------------

/// ASCII whitespace, as trimmed around header values.
pub open spec fn is_ws(b: u8) -> bool {
    b == 32 || b == 9 || b == 13 || b == 10
}

/// `s` without its leading whitespace.
pub open spec fn trim_front(s: Seq<u8>) -> Seq<u8>
    decreases s.len(),
{
    if s.len() > 0 && is_ws(s[0]) {
        trim_front(s.skip(1))
    } else {
        s
    }
}

/// `s` without its trailing whitespace.
pub open spec fn trim_back(s: Seq<u8>) -> Seq<u8>
    decreases s.len(),
{
    if s.len() > 0 && is_ws(s.last()) {
        trim_back(s.drop_last())
    } else {
        s
    }
}

/// `s` without leading and trailing whitespace.
pub open spec fn trim_spec(s: Seq<u8>) -> Seq<u8> {
    trim_back(trim_front(s))
}

/// Dropping leading whitespace keeps exactly the part after the first
/// non-whitespace byte.
proof fn lemma_trim_front_at(s: Seq<u8>, a: int)
    requires
        0 <= a <= s.len(),
        forall|k: int| 0 <= k < a ==> is_ws(s[k]),
        a == s.len() || !is_ws(s[a]),
    ensures
        trim_front(s) == s.skip(a),
    decreases a,
{
    if a == 0 {
        assert(s.skip(0) =~= s);
    } else {
        lemma_trim_front_at(s.skip(1), a - 1);
        assert(s.skip(1).skip(a - 1) =~= s.skip(a));
    }
}

/// Dropping trailing whitespace keeps exactly the part before the last
/// non-whitespace byte.
proof fn lemma_trim_back_at(s: Seq<u8>, b: int)
    requires
        0 <= b <= s.len(),
        forall|k: int| b <= k < s.len() ==> is_ws(s[k]),
        b == 0 || !is_ws(s[b - 1]),
    ensures
        trim_back(s) == s.take(b),
    decreases s.len(),
{
    if b == s.len() {
        assert(s.take(b) =~= s);
    } else {
        lemma_trim_back_at(s.drop_last(), b);
        assert(s.drop_last().take(b) =~= s.take(b));
    }
}

/// Copy of `s` without surrounding ASCII whitespace.
pub fn trim(s: &Vec<u8>) -> (r: Vec<u8>)
    ensures
        r@ == trim_spec(s@),
{
    let len = s.len();
    let mut a: usize = 0;
    while a < len && (s[a] == 32 || s[a] == 9 || s[a] == 13 || s[a] == 10)
        invariant
            len == s@.len(),
            0 <= a <= len,
            forall|k: int| 0 <= k < a ==> is_ws(s@[k]),
        decreases len - a,
    {
        a += 1;
    }
    let mut b: usize = len;
    while b > a && (s[b - 1] == 32 || s[b - 1] == 9 || s[b - 1] == 13 || s[b - 1] == 10)
        invariant
            len == s@.len(),
            0 <= a <= b <= len,
            forall|k: int| 0 <= k < a ==> is_ws(s@[k]),
            forall|k: int| b <= k < len ==> is_ws(s@[k]),
        decreases b,
    {
        b -= 1;
    }
    let r = subvec(s, a, b);
    proof {
        lemma_trim_front_at(s@, a as int);
        lemma_trim_back_at(s@.skip(a as int), b - a);
        assert(s@.skip(a as int).take(b - a) =~= s@.subrange(a as int, b as int));
    }
    r
}

// ---------------------------------------------------------------------------
// Decimal rendering of a length
// ---------------------------------------------------------------------------

/// The decimal digits of `n`, most significant first.
pub open spec fn dec_digits(n: nat) -> Seq<u8>
    decreases n,
{
    if n < 10 {
        seq![(48 + n) as u8]
    } else {
        dec_digits(n / 10).push((48 + n % 10) as u8)
    }
}

/// Render `n` in decimal ASCII.
pub fn usize_to_dec(n: usize) -> (r: Vec<u8>)
    ensures
        r@ == dec_digits(n as nat),
    decreases n,
{
    if n < 10 {
        let mut r: Vec<u8> = Vec::new();
        r.push(48 + (n as u8));
        proof {
            assert(r@ =~= dec_digits(n as nat));
        }
        r
    } else {
        let mut r = usize_to_dec(n / 10);
        r.push(48 + ((n % 10) as u8));
        proof {
            assert(48 + ((n as nat % 10)) as u8 == (48 + n as nat % 10) as u8);
        }
        r
    }
}

// ---------------------------------------------------------------------------
// Stripping trailing NUL padding
// ---------------------------------------------------------------------------

/// `s` without its trailing zero bytes.
pub open spec fn strip_nul(s: Seq<u8>) -> Seq<u8>
    decreases s.len(),
{
    if s.len() > 0 && s.last() == 0 {
        strip_nul(s.drop_last())
    } else {
        s
    }
}

/// Stripping keeps exactly the part before the trailing zeros.
proof fn lemma_strip_nul_at(s: Seq<u8>, b: int)
    requires
        0 <= b <= s.len(),
        forall|k: int| b <= k < s.len() ==> s[k] == 0,
        b == 0 || s[b - 1] != 0,
    ensures
        strip_nul(s) == s.take(b),
    decreases s.len(),
{
    if b == s.len() {
        assert(s.take(b) =~= s);
    } else {
        lemma_strip_nul_at(s.drop_last(), b);
        assert(s.drop_last().take(b) =~= s.take(b));
    }
}

/// Copy of `s` without its trailing zero bytes.
pub fn strip_trailing_nul(s: &Vec<u8>) -> (r: Vec<u8>)
    ensures
        r@ == strip_nul(s@),
{
    let len = s.len();
    let mut b: usize = len;
    while b > 0 && s[b - 1] == 0
        invariant
            len == s@.len(),
            0 <= b <= len,
            forall|k: int| b <= k < len ==> s@[k] == 0,
        decreases b,
    {
        b -= 1;
    }
    let r = subvec(s, 0, b);
    proof {
        lemma_strip_nul_at(s@, b as int);
        assert(s@.take(b as int) =~= s@.subrange(0, b as int));
    }
    r
}

} // verus!

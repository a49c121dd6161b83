//! The stateless frame extractor and the byte searches it is built from.
use vstd::prelude::*;

verus! {

/// Line feed.
pub const LF: u8 = 10;

/// Carriage return.
pub const CR: u8 = 13;

/// The byte that opens a telegram at the start of a line: `/`.
pub const TELEGRAM_START: u8 = 47;

/// The byte that opens the last line of a telegram: `!`.
pub const TELEGRAM_END: u8 = 33;

/// `n` occurs in `h` at position `i`.
pub open spec fn occurs_at(h: Seq<u8>, n: Seq<u8>, i: int) -> bool {
    0 <= i && i + n.len() <= h.len() && h.subrange(i, i + n.len()) == n
}

/// `i` is the first position at which `n` occurs in `h`.
pub open spec fn is_first_occurrence(h: Seq<u8>, n: Seq<u8>, i: int) -> bool {
    &&& occurs_at(h, n, i)
    &&& forall|j: int| 0 <= j < i ==> !occurs_at(h, n, j)
}

/// The first position at which `n` occurs in `h`, if any.
pub open spec fn first_occurrence(h: Seq<u8>, n: Seq<u8>) -> Option<int> {
    if exists|i: int| occurs_at(h, n, i) {
        Some(choose|i: int| is_first_occurrence(h, n, i))
    } else {
        None
    }
}

/// Position `p` of `b` holds `c` and starts a line: it is the first position
/// or follows a line feed.
pub open spec fn is_line_start(b: Seq<u8>, c: u8, p: int) -> bool {
    0 <= p < b.len() && b[p] == c && (p == 0 || b[p - 1] == LF)
}

/// `p` is the first line of `b` that starts with `c`.
pub open spec fn is_first_line_start(b: Seq<u8>, c: u8, p: int) -> bool {
    &&& is_line_start(b, c, p)
    &&& forall|q: int| 0 <= q < p ==> !is_line_start(b, c, q)
}

/// The position of the first line of `b` that starts with `c`, if any.
pub open spec fn first_line_start(b: Seq<u8>, c: u8) -> Option<int> {
    if exists|p: int| is_line_start(b, c, p) {
        Some(choose|p: int| is_first_line_start(b, c, p))
    } else {
        None
    }
}

proof fn lemma_least_occurrence(h: Seq<u8>, n: Seq<u8>, i: int)
    requires
        occurs_at(h, n, i),
    ensures
        exists|k: int| is_first_occurrence(h, n, k),
    decreases i,
{
    if exists|j: int| 0 <= j < i && occurs_at(h, n, j) {
        let j = choose|j: int| 0 <= j < i && occurs_at(h, n, j);
        lemma_least_occurrence(h, n, j);
    } else {
        assert(is_first_occurrence(h, n, i));
    }
}

/// `first_occurrence` is the least position at which the needle occurs.
pub proof fn lemma_first_occurrence(h: Seq<u8>, n: Seq<u8>)
    ensures
        first_occurrence(h, n) is None <==> forall|i: int| !occurs_at(h, n, i),
        forall|i: int| first_occurrence(h, n) == Some(i) <==> is_first_occurrence(h, n, i),
{
    if exists|i: int| occurs_at(h, n, i) {
        let i = choose|i: int| occurs_at(h, n, i);
        lemma_least_occurrence(h, n, i);
        let k = choose|k: int| is_first_occurrence(h, n, k);
        assert forall|i: int| first_occurrence(h, n) == Some(i) <==> is_first_occurrence(h, n, i) by {
            if is_first_occurrence(h, n, i) {
                if i < k {
                    assert(!is_first_occurrence(h, n, k));
                } else if k < i {
                    assert(!is_first_occurrence(h, n, i));
                }
            }
        }
    }
}

/// The first position at which `needle` occurs in `haystack`; `None` for an
/// empty needle.
pub fn find_subslice(haystack: &[u8], needle: &[u8]) -> (r: Option<usize>)
    ensures
        needle@.len() == 0 ==> r is None,
        needle@.len() > 0 ==> match r {
            Some(i) => first_occurrence(haystack@, needle@) == Some(i as int),
            None => first_occurrence(haystack@, needle@) is None,
        },
{
    let n = needle.len();
    if n == 0 {
        return None;
    }
    proof {
        lemma_first_occurrence(haystack@, needle@);
    }
    if haystack.len() < n {
        assert forall|i: int| !occurs_at(haystack@, needle@, i) by {}
        return None;
    }
    let last = haystack.len() - n;
    let mut i: usize = 0;
    while i <= last
        invariant
            n == needle@.len(),
            n > 0,
            last + n == haystack.len(),
            i <= last + 1,
            forall|j: int| 0 <= j < i ==> !occurs_at(haystack@, needle@, j),
        decreases last + 1 - i,
    {
        let mut k: usize = 0;
        let mut same = true;
        while k < n
            invariant
                n == needle@.len(),
                i <= last,
                last + n == haystack.len(),
                k <= n,
                same == (forall|m: int| 0 <= m < k ==> haystack@[i + m] == needle@[m]),
            decreases n - k,
        {
            if haystack[i + k] != needle[k] {
                same = false;
            }
            k = k + 1;
        }
        if same {
            assert(haystack@.subrange(i as int, i + n) =~= needle@);
            assert(is_first_occurrence(haystack@, needle@, i as int));
            proof {
                lemma_first_occurrence(haystack@, needle@);
            }
            return Some(i);
        }
        assert(!occurs_at(haystack@, needle@, i as int)) by {
            if occurs_at(haystack@, needle@, i as int) {
                let m = choose|m: int| 0 <= m < n && haystack@[i + m] != needle@[m];
                assert(haystack@.subrange(i as int, i + n)[m] == needle@[m]);
            }
        }
        i = i + 1;
    }
    proof {
        lemma_first_occurrence(haystack@, needle@);
    }
    None
}

proof fn lemma_least_line_start(b: Seq<u8>, c: u8, p: int)
    requires
        is_line_start(b, c, p),
    ensures
        exists|k: int| is_first_line_start(b, c, k),
    decreases p,
{
    if exists|q: int| 0 <= q < p && is_line_start(b, c, q) {
        let q = choose|q: int| 0 <= q < p && is_line_start(b, c, q);
        lemma_least_line_start(b, c, q);
    } else {
        assert(is_first_line_start(b, c, p));
    }
}

/// `first_line_start` is the least position that starts a line with the byte.
pub proof fn lemma_first_line_start(b: Seq<u8>, c: u8)
    ensures
        first_line_start(b, c) is None <==> forall|p: int| !is_line_start(b, c, p),
        forall|p: int| first_line_start(b, c) == Some(p) <==> is_first_line_start(b, c, p),
{
    if exists|p: int| is_line_start(b, c, p) {
        let p = choose|p: int| is_line_start(b, c, p);
        lemma_least_line_start(b, c, p);
        let k = choose|k: int| is_first_line_start(b, c, k);
        assert forall|p: int| first_line_start(b, c) == Some(p) <==> is_first_line_start(b, c, p) by {
            if is_first_line_start(b, c, p) {
                if p < k {
                    assert(!is_first_line_start(b, c, k));
                } else if k < p {
                    assert(!is_first_line_start(b, c, p));
                }
            }
        }
    }
}

proof fn lemma_line_start_found(b: Seq<u8>, c: u8)
    requires
        first_line_start(b, c) is Some,
    ensures
        is_first_line_start(b, c, first_line_start(b, c)->0),
{
    lemma_first_line_start(b, c);
}

proof fn lemma_occurrence_found(h: Seq<u8>, n: Seq<u8>)
    requires
        first_occurrence(h, n) is Some,
    ensures
        is_first_occurrence(h, n, first_occurrence(h, n)->0),
{
    lemma_first_occurrence(h, n);
}

/// The position of the first line of `bytes` that starts with `start`.
pub fn find_line_starting_with(bytes: &[u8], start: u8) -> (r: Option<usize>)
    ensures
        match r {
            Some(p) => first_line_start(bytes@, start) == Some(p as int),
            None => first_line_start(bytes@, start) is None,
        },
{
    proof {
        lemma_first_line_start(bytes@, start);
    }
    if bytes.len() > 0 && bytes[0] == start {
        assert(is_first_line_start(bytes@, start, 0));
        return Some(0);
    }
    let start_line: [u8; 2] = [LF, start];
    let needle = start_line.as_slice();
    assert(needle@ =~= seq![LF, start]);
    let found = find_subslice(bytes, needle);
    proof {
        lemma_first_occurrence(bytes@, needle@);
        assert forall|o: int| occurs_at(bytes@, needle@, o) <==> is_line_start(bytes@, start, o + 1)
            by {
            if occurs_at(bytes@, needle@, o) {
                assert(bytes@.subrange(o, o + 2)[0] == LF);
                assert(bytes@.subrange(o, o + 2)[1] == start);
            }
            if is_line_start(bytes@, start, o + 1) && o >= 0 {
                assert(bytes@.subrange(o, o + 2) =~= needle@);
            }
        }
    }
    match found {
        Some(o) => {
            assert(is_first_line_start(bytes@, start, o + 1)) by {
                assert(is_first_occurrence(bytes@, needle@, o as int));
                assert forall|q: int| 0 <= q < o + 1 implies !is_line_start(bytes@, start, q) by {
                    if q > 0 {
                        assert(!occurs_at(bytes@, needle@, q - 1));
                    }
                }
            }
            Some(o + 1)
        },
        None => {
            assert forall|p: int| !is_line_start(bytes@, start, p) by {
                if p > 0 {
                    assert(!occurs_at(bytes@, needle@, p - 1));
                }
            }
            None
        },
    }
}

/// The line break that closes a telegram.
pub open spec fn crlf() -> Seq<u8> {
    seq![CR, LF]
}

/// What the frame extractor makes of `b`: the first complete telegram, if
/// any, and the bytes left for later.
///
/// A telegram starts at the first line that begins with the start byte, runs
/// to the first later line that begins with the end byte, and ends with the
/// first line break of that line. Bytes before the start are dropped; when
/// no start is found at all, everything is dropped.
pub open spec fn telegram_split(b: Seq<u8>) -> (Option<Seq<u8>>, Seq<u8>) {
    match first_line_start(b, TELEGRAM_START) {
        None => (None, Seq::empty()),
        Some(s) => {
            let t = b.subrange(s, b.len() as int);
            match first_line_start(t, TELEGRAM_END) {
                None => (None, t),
                Some(e) => match first_occurrence(t.subrange(e, t.len() as int), crlf()) {
                    None => (None, t),
                    Some(k) => {
                        let end = e + k + 2;
                        (Some(t.subrange(0, end)), t.subrange(end, t.len() as int))
                    },
                },
            }
        },
    }
}

/// Finds the first complete telegram in `bytes` and returns it together with
/// the bytes after it; without a complete telegram, returns what must be kept
/// to complete one later.
pub fn extract_telegram(bytes: &[u8]) -> (r: (Option<&[u8]>, &[u8]))
    ensures
        r.1@ == telegram_split(bytes@).1,
        match r.0 {
            Some(m) => telegram_split(bytes@).0 == Some(m@),
            None => telegram_split(bytes@).0 is None,
        },
{
    let empty: &[u8] = &[];
    assert(empty@ =~= Seq::<u8>::empty());
    let s = match find_line_starting_with(bytes, TELEGRAM_START) {
        Some(s) => s,
        None => {
            return (None, empty);
        },
    };
    proof {
        lemma_first_line_start(bytes@, TELEGRAM_START);
        assert(is_first_line_start(bytes@, TELEGRAM_START, s as int));
    }
    let (_, telegram_start) = bytes.split_at(s);
    let e = match find_line_starting_with(telegram_start, TELEGRAM_END) {
        Some(e) => e,
        None => {
            return (None, telegram_start);
        },
    };
    proof {
        lemma_first_line_start(telegram_start@, TELEGRAM_END);
        assert(is_first_line_start(telegram_start@, TELEGRAM_END, e as int));
    }
    let (_, last_line) = telegram_start.split_at(e);
    let line_break: [u8; 2] = [CR, LF];
    let needle = line_break.as_slice();
    assert(needle@ =~= crlf());
    let k = match find_subslice(last_line, needle) {
        Some(k) => k,
        None => {
            return (None, telegram_start);
        },
    };
    proof {
        lemma_first_occurrence(last_line@, needle@);
        assert(is_first_occurrence(last_line@, needle@, k as int));
        assert(last_line@.len() == telegram_start@.len() - e);
        assert(e + k + 2 <= telegram_start@.len());
    }
    let n = telegram_start.len();
    assert(e + k + 2 <= n);
    let (telegram, rest) = telegram_start.split_at(e + k + 2);
    (Some(telegram), rest)
}

/// The extractor only cuts `b`: what it drops, the telegram it finds and
/// what it keeps are, in this order, `b` itself. A telegram starts with the
/// start byte and ends with a line break.
pub proof fn lemma_telegram_split(b: Seq<u8>)
    ensures
        ({
            let (m, rest) = telegram_split(b);
            match m {
                Some(m) => {
                    &&& 2 <= m.len()
                    &&& m[0] == TELEGRAM_START
                    &&& m.subrange(m.len() - 2, m.len() as int) == crlf()
                    &&& m.len() + rest.len() <= b.len()
                    &&& b == b.subrange(0, b.len() - m.len() - rest.len()) + m + rest
                },
                None => {
                    &&& rest.len() <= b.len()
                    &&& b == b.subrange(0, b.len() - rest.len()) + rest
                },
            }
        }),
{
    match first_line_start(b, TELEGRAM_START) {
        None => {
            assert(b =~= b.subrange(0, b.len() as int) + Seq::<u8>::empty());
        },
        Some(s) => {
            lemma_line_start_found(b, TELEGRAM_START);
            let t = b.subrange(s, b.len() as int);
            assert(b =~= b.subrange(0, s) + t);
            match first_line_start(t, TELEGRAM_END) {
                None => {},
                Some(e) => {
                    lemma_line_start_found(t, TELEGRAM_END);
                    let l = t.subrange(e, t.len() as int);
                    match first_occurrence(l, crlf()) {
                        None => {},
                        Some(k) => {
                            lemma_occurrence_found(l, crlf());
                            let end = e + k + 2;
                            let m = t.subrange(0, end);
                            let rest = t.subrange(end, t.len() as int);
                            assert(t =~= m + rest);
                            assert(m.subrange(m.len() - 2, m.len() as int) =~= l.subrange(k, k + 2));
                            assert(b.subrange(0, b.len() - m.len() - rest.len()) =~= b.subrange(0, s));
                            assert(b =~= b.subrange(0, s) + m + rest);
                        },
                    }
                },
            }
        },
    }
}

/// What the extractor keeps when it finds no telegram, it keeps again as it
/// is.
pub proof fn lemma_split_rest_quiescent(b: Seq<u8>)
    requires
        telegram_split(b).0 is None,
    ensures
        telegram_split(telegram_split(b).1) == (None::<Seq<u8>>, telegram_split(b).1),
{
    let rest = telegram_split(b).1;
    match first_line_start(b, TELEGRAM_START) {
        None => {
            assert(rest.len() == 0);
            assert(first_line_start(rest, TELEGRAM_START) is None);
        },
        Some(s) => {
            lemma_line_start_found(b, TELEGRAM_START);
            let t = b.subrange(s, b.len() as int);
            assert(rest == t);
            assert(is_first_line_start(t, TELEGRAM_START, 0));
            lemma_first_line_start(t, TELEGRAM_START);
            assert(first_line_start(t, TELEGRAM_START) == Some(0int));
            assert(t.subrange(0, t.len() as int) =~= t);
        },
    }
}

/// Appending bytes changes no line start before them, so the first line
/// start that `b` has is also the first of `b + y`.
pub proof fn lemma_first_line_start_append(b: Seq<u8>, y: Seq<u8>, c: u8)
    requires
        first_line_start(b, c) is Some,
    ensures
        first_line_start(b + y, c) == first_line_start(b, c),
{
    lemma_line_start_found(b, c);
    let p = first_line_start(b, c)->0;
    let by = b + y;
    assert forall|q: int| 0 <= q <= p implies is_line_start(by, c, q) == is_line_start(b, c, q) by {
        assert(by[q] == b[q]);
        if q > 0 {
            assert(by[q - 1] == b[q - 1]);
        }
    }
    assert(is_first_line_start(by, c, p));
    lemma_first_line_start(by, c);
}

/// Appending bytes changes no occurrence that lies before them.
pub proof fn lemma_first_occurrence_append(h: Seq<u8>, y: Seq<u8>, n: Seq<u8>)
    requires
        first_occurrence(h, n) is Some,
    ensures
        first_occurrence(h + y, n) == first_occurrence(h, n),
{
    lemma_occurrence_found(h, n);
    let k = first_occurrence(h, n)->0;
    let hy = h + y;
    assert forall|j: int| 0 <= j <= k implies occurs_at(hy, n, j) == occurs_at(h, n, j) by {
        assert(hy.subrange(j, j + n.len()) =~= h.subrange(j, j + n.len()));
    }
    assert(is_first_occurrence(hy, n, k));
    lemma_first_occurrence(hy, n);
}

/// Where `b` has no line that starts with `c`, the first one of `b + y` is the
/// first one of `y`, moved by the length of `b`, unless `b` ends in the middle
/// of a line and `y` starts with `c`.
pub proof fn lemma_first_line_start_after(b: Seq<u8>, y: Seq<u8>, c: u8)
    requires
        first_line_start(b, c) is None,
        b.len() == 0 || b.last() == LF || y.len() == 0 || y[0] != c,
    ensures
        match first_line_start(y, c) {
            Some(p) => first_line_start(b + y, c) == Some(b.len() + p),
            None => first_line_start(b + y, c) is None,
        },
{
    lemma_first_line_start(b, c);
    lemma_first_line_start(y, c);
    let by = b + y;
    lemma_first_line_start(by, c);
    assert forall|q: int| 0 <= q < b.len() implies !is_line_start(by, c, q) by {
        assert(by[q] == b[q]);
        if q > 0 {
            assert(by[q - 1] == b[q - 1]);
        }
        assert(!is_line_start(b, c, q));
    }
    assert forall|p: int| 0 <= p < y.len() implies is_line_start(by, c, b.len() + p)
        == is_line_start(y, c, p) by {
        assert(by[b.len() + p] == y[p]);
        if p > 0 {
            assert(by[b.len() + p - 1] == y[p - 1]);
        } else if b.len() > 0 {
            assert(by[b.len() - 1] == b.last());
        }
    }
    match first_line_start(y, c) {
        Some(p) => {
            assert(is_first_line_start(y, c, p));
            assert forall|q: int| 0 <= q < b.len() + p implies !is_line_start(by, c, q) by {
                if q >= b.len() {
                    assert(!is_line_start(y, c, q - b.len()));
                }
            }
            assert(is_first_line_start(by, c, b.len() + p));
        },
        None => {
            assert forall|q: int| !is_line_start(by, c, q) by {
                if q >= b.len() && q < by.len() {
                    assert(!is_line_start(y, c, q - b.len()));
                }
            }
        },
    }
}

/// A telegram that the extractor finds in `b` it finds as well when more
/// bytes follow; they are kept after it.
pub proof fn lemma_split_append_found(b: Seq<u8>, y: Seq<u8>)
    requires
        telegram_split(b).0 is Some,
    ensures
        telegram_split(b + y) == (telegram_split(b).0, telegram_split(b).1 + y),
{
    let by = b + y;
    lemma_line_start_found(b, TELEGRAM_START);
    lemma_first_line_start_append(b, y, TELEGRAM_START);
    let s = first_line_start(b, TELEGRAM_START)->0;
    let t = b.subrange(s, b.len() as int);
    let ty = by.subrange(s, by.len() as int);
    assert(ty =~= t + y);
    lemma_line_start_found(t, TELEGRAM_END);
    lemma_first_line_start_append(t, y, TELEGRAM_END);
    let e = first_line_start(t, TELEGRAM_END)->0;
    let l = t.subrange(e, t.len() as int);
    let ly = ty.subrange(e, ty.len() as int);
    assert(ly =~= l + y);
    lemma_occurrence_found(l, crlf());
    lemma_first_occurrence_append(l, y, crlf());
    let k = first_occurrence(l, crlf())->0;
    let end = e + k + 2;
    assert(ty.subrange(0, end) =~= t.subrange(0, end));
    assert(ty.subrange(end, ty.len() as int) =~= t.subrange(end, t.len() as int) + y);
}

/// Where the extractor finds no telegram in `b`, what follows `b` is read as
/// if it followed what the extractor keeps of `b`, unless `b` is dropped whole,
/// ends in the middle of a line, and `y` starts with the start byte.
pub proof fn lemma_split_append_kept(b: Seq<u8>, y: Seq<u8>)
    requires
        telegram_split(b).0 is None,
        telegram_split(b).1.len() > 0 || b.len() == 0 || b.last() == LF || y.len() == 0 || y[0]
            != TELEGRAM_START,
    ensures
        telegram_split(b + y) == telegram_split(telegram_split(b).1 + y),
{
    let by = b + y;
    let r = telegram_split(b).1;
    match first_line_start(b, TELEGRAM_START) {
        Some(s) => {
            lemma_line_start_found(b, TELEGRAM_START);
            lemma_first_line_start_append(b, y, TELEGRAM_START);
            let t = b.subrange(s, b.len() as int);
            assert(r == t);
            assert(by.subrange(s, by.len() as int) =~= t + y);
            assert(is_first_line_start(t, TELEGRAM_START, 0));
            lemma_first_line_start(t, TELEGRAM_START);
            lemma_first_line_start_append(t, y, TELEGRAM_START);
            assert((t + y).subrange(0, (t + y).len() as int) =~= t + y);
        },
        None => {
            assert(r.len() == 0);
            assert(r + y =~= y);
            lemma_first_line_start_after(b, y, TELEGRAM_START);
            match first_line_start(y, TELEGRAM_START) {
                Some(p) => {
                    lemma_line_start_found(y, TELEGRAM_START);
                    assert(by.subrange(b.len() + p, by.len() as int) =~= y.subrange(
                        p,
                        y.len() as int,
                    ));
                },
                None => {},
            }
        },
    }
}

/// The bytes the extractor drops from the front of `b`: all of `b` when it
/// has no start, else those before the start.
pub open spec fn dropped_prefix(b: Seq<u8>) -> Seq<u8> {
    let (m, rest) = telegram_split(b);
    let kept = match m {
        Some(m) => m.len() + rest.len(),
        None => rest.len(),
    };
    b.subrange(0, b.len() - kept)
}

/// No line of what the extractor drops starts with the start byte.
pub proof fn lemma_dropped_prefix(b: Seq<u8>)
    ensures
        forall|p: int| !is_line_start(dropped_prefix(b), TELEGRAM_START, p),
{
    lemma_telegram_split(b);
    let d = dropped_prefix(b);
    match first_line_start(b, TELEGRAM_START) {
        None => {
            lemma_first_line_start(b, TELEGRAM_START);
            assert(d =~= b);
        },
        Some(s) => {
            lemma_line_start_found(b, TELEGRAM_START);
            let t = b.subrange(s, b.len() as int);
            match first_line_start(t, TELEGRAM_END) {
                None => {},
                Some(e) => {
                    lemma_line_start_found(t, TELEGRAM_END);
                    let l = t.subrange(e, t.len() as int);
                    if first_occurrence(l, crlf()) is Some {
                        lemma_occurrence_found(l, crlf());
                    }
                },
            }
            assert(d.len() == s);
            assert forall|p: int| !is_line_start(d, TELEGRAM_START, p) by {
                if 0 <= p < d.len() {
                    assert(d[p] == b[p]);
                    if p > 0 {
                        assert(d[p - 1] == b[p - 1]);
                    }
                    assert(!is_line_start(b, TELEGRAM_START, p));
                }
            }
        },
    }
}

} // verus!

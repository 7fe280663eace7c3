use vstd::prelude::*;
use vstd::string::StringSliceAdditionalSpecFns;

verus! {

/// No byte lies below the digit zero.
pub open spec fn no_byte_below_zero(b: Seq<u8>) -> bool {
    forall|k: int| 0 <= k < b.len() ==> #[trigger] b[k] >= 48
}

/// The two-digit number read from positions `i` and `j`.
pub open spec fn pair_value(b: Seq<u8>, i: int, j: int) -> int {
    (b[i] - 48) * 10 + (b[j] - 48)
}

/// The largest two-digit number that two bytes of `line` form in their
/// order, or 0 when there is no such pair.
pub fn part1(line: &str) -> (r: i64)
    requires
        no_byte_below_zero(line.spec_bytes()),
    ensures
        r >= 0,
        forall|i: int, j: int|
            0 <= i < j < line.spec_bytes().len() ==> #[trigger] pair_value(line.spec_bytes(), i, j) <= r,
        r == 0 || exists|i: int, j: int|
            0 <= i < j < line.spec_bytes().len() && #[trigger] pair_value(line.spec_bytes(), i, j) == r,
{
    let bytes = line.as_bytes();
    let len = bytes.len();
    let mut best: i64 = 0;
    let mut i: usize = 0;
    while i < len
        invariant
            bytes@ == line.spec_bytes(),
            len == bytes@.len(),
            no_byte_below_zero(bytes@),
            i <= len,
            best >= 0,
            forall|a: int, c: int| 0 <= a < i && a < c < len ==> #[trigger] pair_value(bytes@, a, c) <= best,
            best == 0 || exists|a: int, c: int| 0 <= a < c < len && #[trigger] pair_value(bytes@, a, c) == best,
        decreases len - i,
    {
        let mut j: usize = i + 1;
        while j < len
            invariant
                bytes@ == line.spec_bytes(),
                len == bytes@.len(),
                no_byte_below_zero(bytes@),
                i < len,
                i < j <= len,
                best >= 0,
                forall|a: int, c: int|
                    (0 <= a < i && a < c < len) || (a == i && i < c < j) ==> #[trigger] pair_value(bytes@, a, c) <= best,
                best == 0 || exists|a: int, c: int| 0 <= a < c < len && #[trigger] pair_value(bytes@, a, c) == best,
            decreases len - j,
        {
            assert(bytes@[i as int] >= 48 && bytes@[j as int] >= 48);
            let joltage = ((bytes[i] - 48) as i64) * 10 + (bytes[j] - 48) as i64;
            assert(joltage == pair_value(bytes@, i as int, j as int));
            if joltage > best {
                best = joltage;
            }
            j = j + 1;
        }
        i = i + 1;
    }
    best
}

/// How many digits `part2` keeps.
pub const KEEP: usize = 12;

/// `q` lists positions of `0..n` in strictly increasing order.
pub open spec fn increasing_in(q: Seq<int>, n: int) -> bool {
    &&& forall|k: int| 0 <= k < q.len() ==> 0 <= #[trigger] q[k] < n
    &&& forall|k: int| 0 < k < q.len() ==> q[k - 1] < #[trigger] q[k]
}

/// The digit values at positions `q` of `b`.
pub open spec fn picked(b: Seq<u8>, q: Seq<int>) -> Seq<int> {
    Seq::new(q.len(), |k: int| b[q[k]] - 48)
}

/// `x` comes strictly before `y` in lexicographic order: they agree up to
/// some place where `x` holds the smaller value.
pub open spec fn lex_lt(x: Seq<int>, y: Seq<int>) -> bool {
    exists|j: int| 0 <= j < x.len() && j < y.len() && x.take(j) == y.take(j) && #[trigger] x[j] < y[j]
}

/// The number whose decimal digits, most significant first, are `d`.
pub open spec fn decimal(d: Seq<int>) -> int
    decreases d.len(),
{
    if d.len() == 0 {
        0
    } else {
        decimal(d.drop_last()) * 10 + d.last()
    }
}

pub open spec fn pow10(k: nat) -> int
    decreases k,
{
    if k == 0 {
        1
    } else {
        10 * pow10((k - 1) as nat)
    }
}

/// `best` is the first position of a largest byte in `b[lo..=hi]`.
pub open spec fn leftmost_max(b: Seq<u8>, lo: int, hi: int, best: int) -> bool {
    &&& lo <= best <= hi
    &&& forall|i: int| lo <= i <= hi ==> #[trigger] b[i] <= b[best]
    &&& forall|i: int| lo <= i < best ==> #[trigger] b[i] < b[best]
}

/// `p` is the greedy choice of `KEEP` positions of `b`: each is the first
/// largest byte among those that still leave room for the rest.
pub open spec fn greedy_choice(b: Seq<u8>, p: Seq<int>) -> bool {
    forall|k: int| 0 <= k < p.len() ==> #[trigger] greedy_at(b, p, k)
}

/// Where the window for the `k`-th choice begins: just after the previous one.
pub open spec fn window_start(p: Seq<int>, k: int) -> int {
    if k == 0 {
        0
    } else {
        p[k - 1] + 1
    }
}

/// Position `p[k]` is the first largest byte of its window.
pub open spec fn greedy_at(b: Seq<u8>, p: Seq<int>, k: int) -> bool {
    leftmost_max(b, window_start(p, k), b.len() - KEEP + k, p[k])
}

proof fn lemma_room(q: Seq<int>, n: int, k: int)
    requires
        increasing_in(q, n),
        0 <= k < q.len(),
    ensures
        q[k] <= n - q.len() + k,
    decreases q.len() - k,
{
    if k + 1 < q.len() {
        lemma_room(q, n, k + 1);
    }
}

proof fn lemma_greedy_prefix(b: Seq<u8>, p: Seq<int>, q: Seq<int>, k: int)
    requires
        b.len() >= KEEP,
        p.len() == KEEP,
        q.len() == KEEP,
        greedy_choice(b, p),
        increasing_in(q, b.len() as int),
        0 <= k <= KEEP,
    ensures
        lex_lt(picked(b, q), picked(b, p)) || (picked(b, q).take(k) == picked(b, p).take(k) && (k > 0
            ==> p[k - 1] <= q[k - 1])),
    decreases k,
{
    if k > 0 {
        lemma_greedy_prefix(b, p, q, k - 1);
        let x = picked(b, q);
        let y = picked(b, p);
        if !lex_lt(x, y) {
            lemma_room(q, b.len() as int, k - 1);
            let lo = window_start(p, k - 1);
            assert(greedy_at(b, p, k - 1));
            assert(lo <= q[k - 1]);
            if x[k - 1] < y[k - 1] {
                assert(x.take(k - 1) == y.take(k - 1));
                assert(lex_lt(x, y));
            }
            assert(x.take(k) =~= y.take(k)) by {
                assert(x.take(k - 1) == y.take(k - 1));
                assert forall|i: int| 0 <= i < k implies x.take(k)[i] == y.take(k)[i] by {
                    if i < k - 1 {
                        assert(x.take(k - 1)[i] == y.take(k - 1)[i]);
                    }
                }
            }
        }
    } else {
        assert(picked(b, q).take(0) =~= picked(b, p).take(0));
    }
}

/// The number read from the lexicographically greatest choice of `KEEP`
/// bytes of `line`, kept in their order; 0 when the line is shorter.
pub fn part2(line: &str) -> (r: i64)
    requires
        no_byte_below_zero(line.spec_bytes()),
    ensures
        line.spec_bytes().len() < KEEP ==> r == 0,
        line.spec_bytes().len() >= KEEP ==> exists|p: Seq<int>|
            {
                &&& p.len() == KEEP
                &&& increasing_in(p, line.spec_bytes().len() as int)
                &&& r == decimal(#[trigger] picked(line.spec_bytes(), p))
                &&& forall|q: Seq<int>|
                    q.len() == KEEP && increasing_in(q, line.spec_bytes().len() as int) ==> !lex_lt(
                        picked(line.spec_bytes(), p),
                        #[trigger] picked(line.spec_bytes(), q),
                    )
            },
{
    let bytes = line.as_bytes();
    let len = bytes.len();
    if len < KEEP {
        return 0;
    }
    let ghost b = bytes@;
    let ghost mut p: Seq<int> = Seq::empty();
    let mut joltage: i64 = 0;
    let mut start: usize = 0;
    let mut k: usize = 0;
    while k < KEEP
        invariant
            b == bytes@,
            b == line.spec_bytes(),
            len == b.len(),
            len >= KEEP,
            no_byte_below_zero(b),
            k <= KEEP,
            p.len() == k,
            start == window_start(p, k as int),
            start <= len - KEEP + k,
            increasing_in(p, len as int),
            greedy_choice(b, p),
            joltage == decimal(picked(b, p)),
            0 <= joltage <= 23 * (pow10(k as nat) - 1),
        decreases KEEP - k,
    {
        let end = len - KEEP + k;
        let mut best: usize = start;
        let mut i: usize = start + 1;
        while i <= end
            invariant
                b == bytes@,
                len == b.len(),
                start <= best < i,
                i <= end + 1,
                end < len,
                leftmost_max(b, start as int, i - 1, best as int),
            decreases end + 1 - i,
        {
            if bytes[i] > bytes[best] {
                best = i;
            }
            i = i + 1;
        }
        assert(b[best as int] >= 48);
        let d = (bytes[best] - 48) as i64;
        proof {
            assert(pow10((k + 1) as nat) == 10 * pow10(k as nat));
            assert(pow10(k as nat) <= 100_000_000_000) by {
                lemma_pow10_small(k as nat);
            }
        }
        joltage = joltage * 10 + d;
        proof {
            let p0 = p;
            p = p.push(best as int);
            assert(picked(b, p).drop_last() =~= picked(b, p0));
            assert forall|j: int| 0 <= j < p.len() implies #[trigger] greedy_at(b, p, j) by {
                if j < k {
                    assert(greedy_at(b, p0, j));
                    assert(window_start(p, j) == window_start(p0, j));
                }
            }
        }
        start = best + 1;
        k = k + 1;
    }
    proof {
        assert forall|q: Seq<int>|
            q.len() == KEEP && increasing_in(q, len as int) implies !lex_lt(
                picked(b, p),
                #[trigger] picked(b, q),
            ) by {
            lemma_greedy_prefix(b, p, q, KEEP as int);
            assert(picked(b, q).take(KEEP as int) =~= picked(b, q));
            assert(picked(b, p).take(KEEP as int) =~= picked(b, p));
            lemma_lex_asym(picked(b, q), picked(b, p));
        }
    }
    joltage
}

proof fn lemma_pow10_small(k: nat)
    requires
        k <= 11,
    ensures
        1 <= pow10(k) <= 100_000_000_000,
{
    reveal_with_fuel(pow10, 12);
}

proof fn lemma_lex_asym(x: Seq<int>, y: Seq<int>)
    requires
        x.len() == y.len(),
        lex_lt(x, y) || x == y,
    ensures
        !lex_lt(y, x),
{
    if lex_lt(y, x) {
        let j = choose|j: int| 0 <= j < y.len() && j < x.len() && y.take(j) == x.take(j) && #[trigger] y[j] < x[j];
        if x == y {
        } else {
            let i = choose|i: int| 0 <= i < x.len() && i < y.len() && x.take(i) == y.take(i) && #[trigger] x[i] < y[i];
            if i < j {
                assert(y.take(j)[i] == x.take(j)[i]);
            } else if j < i {
                assert(y.take(i)[j] == x.take(i)[j]);
            }
        }
    }
}

} // verus!

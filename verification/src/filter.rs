//! The scanline filters of the format, as mathematics: what a filter of each
//! type makes of a scanline, what the decoder makes of a filtered scanline,
//! and the proof that the second undoes the first.
use vstd::prelude::*;

verus! {

/// Filter types: none, sub, up, average, Paeth.
pub const FILTER_NONE: u8 = 0;

pub const FILTER_SUB: u8 = 1;

pub const FILTER_UP: u8 = 2;

pub const FILTER_AVG: u8 = 3;

pub const FILTER_PAETH: u8 = 4;

pub open spec fn abs(x: int) -> int {
    if x < 0 {
        -x
    } else {
        x
    }
}

/// The Paeth predictor of the left byte `a`, the byte above `b` and the
/// upper-left byte `c`.
pub open spec fn paeth_predictor(a: u8, b: u8, c: u8) -> u8 {
    let p = a + b - c;
    let pa = abs(p - a);
    let pb = abs(p - b);
    let pc = abs(p - c);
    if pa <= pb && pa <= pc {
        a
    } else if pb <= pc {
        b
    } else {
        c
    }
}

/// The Paeth predictor picks, of the left byte `a`, the byte above `b` and
/// the upper-left byte `c`, the one nearest to `p = a + b - c`: no other of
/// the three lies nearer, and ties go to `a`, then to `b`.
pub proof fn lemma_paeth_nearest(a: u8, b: u8, c: u8)
    ensures
        ({
            let p = a + b - c;
            let r = paeth_predictor(a, b, c);
            &&& r == a || r == b || r == c
            &&& abs(p - r) <= abs(p - a)
            &&& abs(p - r) <= abs(p - b)
            &&& abs(p - r) <= abs(p - c)
            &&& abs(p - a) <= abs(p - b) && abs(p - a) <= abs(p - c) ==> r == a
            &&& abs(p - b) < abs(p - a) && abs(p - b) <= abs(p - c) ==> r == b
            &&& abs(p - c) < abs(p - a) && abs(p - c) < abs(p - b) ==> r == c
        }),
{
}

/// The Paeth predictor of the left byte `a`, the byte above `b` and the
/// upper-left byte `c`, given as `i32`.
pub(crate) fn paeth_predict(a: i32, b: i32, c: i32) -> (d: u8)
    requires
        0 <= a <= 255,
        0 <= b <= 255,
        0 <= c <= 255,
    ensures
        d == paeth_predictor(a as u8, b as u8, c as u8),
{
    let p: i32 = a + b - c;
    let pa: i32 = if p - a < 0 {
        a - p
    } else {
        p - a
    };
    let pb: i32 = if p - b < 0 {
        b - p
    } else {
        p - b
    };
    let pc: i32 = if p - c < 0 {
        c - p
    } else {
        p - c
    };
    if pa <= pb && pa <= pc {
        a as u8
    } else if pb <= pc {
        b as u8
    } else {
        c as u8
    }
}

/// The prediction that filter type `k` makes for a byte from the left byte
/// `a`, the byte above `b` and the upper-left byte `c`.
pub open spec fn predictor(k: u8, a: u8, b: u8, c: u8) -> u8 {
    if k == FILTER_NONE {
        0
    } else if k == FILTER_SUB {
        a
    } else if k == FILTER_UP {
        b
    } else if k == FILTER_AVG {
        ((a + b) / 2) as u8
    } else {
        paeth_predictor(a, b, c)
    }
}

/// `x + y` modulo 256.
pub open spec fn add_mod(x: u8, y: u8) -> u8 {
    ((x + y) % 256) as u8
}

/// `x - y` modulo 256.
pub open spec fn sub_mod(x: u8, y: u8) -> u8 {
    ((x - y) % 256) as u8
}

/// The byte `bpp` places to the left of position `j` in `s`, or 0 where
/// there is none.
pub open spec fn left_of(s: Seq<u8>, bpp: nat, j: int) -> u8 {
    if bpp > 0 && j >= bpp {
        s[j - bpp]
    } else {
        0
    }
}

/// `n` zero bytes: the scanline above the first one.
pub open spec fn zeros(n: nat) -> Seq<u8> {
    Seq::new(n, |i: int| 0u8)
}

/// Byte `j` of the scanline `raw` under filter `k`, with `up` the scanline
/// above and `bpp` bytes per complete pixel.
pub open spec fn filter_byte(k: u8, raw: Seq<u8>, up: Seq<u8>, bpp: nat, j: int) -> u8 {
    sub_mod(raw[j], predictor(k, left_of(raw, bpp, j), up[j], left_of(up, bpp, j)))
}

/// The scanline `raw` under filter `k`, with `up` the scanline above.
pub open spec fn filter_bytes(k: u8, raw: Seq<u8>, up: Seq<u8>, bpp: nat) -> Seq<u8> {
    Seq::new(raw.len(), |j: int| filter_byte(k, raw, up, bpp, j))
}

/// Byte `j` of the scanline that the decoder rebuilds from the filtered
/// scanline `src` of type `k`, with `prev` the rebuilt scanline above.
pub open spec fn recon_byte(k: u8, src: Seq<u8>, prev: Seq<u8>, bpp: nat, j: int) -> u8
    decreases j,
{
    let a = if bpp > 0 && j >= bpp {
        recon_byte(k, src, prev, bpp, j - bpp)
    } else {
        0
    };
    add_mod(src[j], predictor(k, a, prev[j], left_of(prev, bpp, j)))
}

/// The scanline that the decoder rebuilds from the filtered scanline `src`
/// of type `k`, with `prev` the rebuilt scanline above.
pub open spec fn recon_row(k: u8, src: Seq<u8>, prev: Seq<u8>, bpp: nat) -> Seq<u8> {
    Seq::new(src.len(), |j: int| recon_byte(k, src, prev, bpp, j))
}

/// The sum of the bytes of `s`.
pub open spec fn byte_sum(s: Seq<u8>) -> int
    decreases s.len(),
{
    if s.len() == 0 {
        0
    } else {
        byte_sum(s.drop_last()) + s.last()
    }
}

/// The first index among `0..n` at which `s` is least.
pub open spec fn first_min(s: Seq<int>, n: int) -> int
    decreases n,
{
    if n <= 1 {
        0
    } else {
        let b = first_min(s, n - 1);
        if s[n - 1] < s[b] {
            n - 1
        } else {
            b
        }
    }
}

/// The score of each filter type for the scanline `raw` under `up`: the sum
/// of the filtered bytes.
pub open spec fn row_scores(raw: Seq<u8>, up: Seq<u8>, bpp: nat) -> Seq<int> {
    Seq::new(5, |k: int| byte_sum(filter_bytes(k as u8, raw, up, bpp)))
}

/// The filter type that the encoder picks for a scanline after the first:
/// the first of least score.
pub open spec fn chosen_filter(raw: Seq<u8>, up: Seq<u8>, bpp: nat) -> u8 {
    first_min(row_scores(raw, up, bpp), 5) as u8
}

/// The filtered image data of the scanlines of `raw` (`bpr` bytes each, a
/// partial one at the end ignored), each one its filter type and its filtered
/// bytes; `up` is the scanline above the first and `first` says whether it is
/// the first of the image, which always takes the sub filter.
#[verifier::opaque]
pub open spec fn filter_rows(raw: Seq<u8>, up: Seq<u8>, first: bool, bpp: nat, bpr: nat) -> Seq<
    u8,
>
    decreases raw.len(),
{
    if bpr == 0 || raw.len() < bpr {
        Seq::empty()
    } else {
        let row = raw.take(bpr as int);
        let k = if first {
            FILTER_SUB
        } else {
            chosen_filter(row, up, bpp)
        };
        seq![k] + filter_bytes(k, row, up, bpp) + filter_rows(
            raw.skip(bpr as int),
            row,
            false,
            bpp,
            bpr,
        )
    }
}

/// The scanlines that the decoder rebuilds from the filtered image data `f`
/// (rows of `bpr + 1` bytes, a partial one at the end ignored), with `prev`
/// the rebuilt scanline above the first; `None` where a filter type is
/// unknown.
#[verifier::opaque]
pub open spec fn unfilter_rows(f: Seq<u8>, prev: Seq<u8>, bpp: nat, bpr: nat) -> Option<Seq<u8>>
    decreases f.len(),
{
    if f.len() < bpr + 1 {
        Some(Seq::empty())
    } else if f[0] > FILTER_PAETH {
        None
    } else {
        let row = recon_row(f[0], f.subrange(1, bpr + 1 as int), prev, bpp);
        match unfilter_rows(f.subrange(bpr + 1 as int, f.len() as int), row, bpp, bpr) {
            Some(rest) => Some(row + rest),
            None => None,
        }
    }
}

proof fn lemma_recon_byte_none_sub(
    s: Seq<u8>,
    p: Seq<u8>,
    q: Seq<u8>,
    n: nat,
    bpp: nat,
    j: int,
)
    requires
        0 <= j < s.len(),
        s.len() <= n,
    ensures
        recon_byte(FILTER_NONE, s, p, bpp, j) == s[j],
        recon_byte(FILTER_UP, s, zeros(n), bpp, j) == s[j],
        recon_byte(FILTER_SUB, s, p, bpp, j) == recon_byte(FILTER_SUB, s, q, bpp, j),
        recon_byte(FILTER_PAETH, s, zeros(n), bpp, j) == recon_byte(
            FILTER_SUB,
            s,
            zeros(n),
            bpp,
            j,
        ),
    decreases j,
{
    if bpp > 0 && j >= bpp {
        lemma_recon_byte_none_sub(s, p, q, n, bpp, j - bpp);
    }
}

/// Under filter type none the rebuilt scanline is the filtered one, and so it
/// is under filter type up on the first scanline.
pub proof fn lemma_recon_none(s: Seq<u8>, p: Seq<u8>, n: nat, bpp: nat)
    requires
        s.len() <= n,
    ensures
        recon_row(FILTER_NONE, s, p, bpp) == s,
        recon_row(FILTER_UP, s, zeros(n), bpp) == s,
{
    assert forall|j: int| 0 <= j < s.len() implies recon_row(FILTER_NONE, s, p, bpp)[j] == s[j]
        && recon_row(FILTER_UP, s, zeros(n), bpp)[j] == s[j] by {
        lemma_recon_byte_none_sub(s, p, p, n, bpp, j);
    }
    assert(recon_row(FILTER_NONE, s, p, bpp) =~= s);
    assert(recon_row(FILTER_UP, s, zeros(n), bpp) =~= s);
}

/// Filter type sub does not look at the scanline above, and on the first
/// scanline filter type Paeth is filter type sub.
pub proof fn lemma_recon_sub(s: Seq<u8>, p: Seq<u8>, n: nat, bpp: nat)
    requires
        s.len() <= n,
    ensures
        recon_row(FILTER_SUB, s, p, bpp) == recon_row(FILTER_SUB, s, zeros(n), bpp),
        recon_row(FILTER_PAETH, s, zeros(n), bpp) == recon_row(FILTER_SUB, s, zeros(n), bpp),
{
    assert forall|j: int| 0 <= j < s.len() implies recon_row(FILTER_SUB, s, p, bpp)[j]
        == recon_row(FILTER_SUB, s, zeros(n), bpp)[j] && recon_row(FILTER_PAETH, s, zeros(n), bpp)[j]
        == recon_row(FILTER_SUB, s, zeros(n), bpp)[j] by {
        lemma_recon_byte_none_sub(s, p, zeros(n), n, bpp, j);
    }
    assert(recon_row(FILTER_SUB, s, p, bpp) =~= recon_row(FILTER_SUB, s, zeros(n), bpp));
    assert(recon_row(FILTER_PAETH, s, zeros(n), bpp) =~= recon_row(FILTER_SUB, s, zeros(n), bpp));
}

proof fn lemma_add_sub_mod(x: u8, p: u8)
    ensures
        add_mod(sub_mod(x, p), p) == x,
{
}

/// Rebuilding a filtered scanline gives back each byte of the scanline.
pub proof fn lemma_recon_filter_byte(k: u8, raw: Seq<u8>, up: Seq<u8>, bpp: nat, j: int)
    requires
        0 <= j < raw.len(),
        raw.len() <= up.len(),
    ensures
        recon_byte(k, filter_bytes(k, raw, up, bpp), up, bpp, j) == raw[j],
    decreases j,
{
    let f = filter_bytes(k, raw, up, bpp);
    if bpp > 0 && j >= bpp {
        lemma_recon_filter_byte(k, raw, up, bpp, j - bpp);
    }
    let p = predictor(k, left_of(raw, bpp, j), up[j], left_of(up, bpp, j));
    assert(f[j] == sub_mod(raw[j], p));
    lemma_add_sub_mod(raw[j], p);
}

/// Rebuilding a filtered scanline gives back the scanline.
pub proof fn lemma_recon_filter_row(k: u8, raw: Seq<u8>, up: Seq<u8>, bpp: nat)
    requires
        raw.len() <= up.len(),
    ensures
        recon_row(k, filter_bytes(k, raw, up, bpp), up, bpp) == raw,
{
    let r = recon_row(k, filter_bytes(k, raw, up, bpp), up, bpp);
    assert forall|j: int| 0 <= j < raw.len() implies r[j] == raw[j] by {
        lemma_recon_filter_byte(k, raw, up, bpp, j);
    }
    assert(r =~= raw);
}

pub proof fn lemma_first_min_range(s: Seq<int>, n: int)
    requires
        n >= 1,
    ensures
        0 <= first_min(s, n) < n,
    decreases n,
{
    if n > 1 {
        lemma_first_min_range(s, n - 1);
    }
}

proof fn lemma_mod_step(n: nat, m: nat)
    requires
        m >= 1,
        n % m == 0,
    ensures
        n < m ==> n == 0,
        n >= m ==> (n - m) as nat % m == 0,
{
    if n < m {
        vstd::arithmetic::div_mod::lemma_small_mod(n, m);
    } else {
        vstd::arithmetic::div_mod::lemma_mod_sub_multiples_vanish(n as int, m as int);
    }
}

proof fn lemma_unfilter_step(
    e: Seq<u8>,
    k: u8,
    fb: Seq<u8>,
    rest: Seq<u8>,
    up: Seq<u8>,
    row: Seq<u8>,
    bpp: nat,
    bpr: nat,
)
    requires
        e == seq![k] + fb + rest,
        fb.len() == bpr,
        k <= FILTER_PAETH,
        recon_row(k, fb, up, bpp) == row,
    ensures
        unfilter_rows(e, up, bpp, bpr) == match unfilter_rows(rest, row, bpp, bpr) {
            Some(tail) => Some(row + tail),
            None => None,
        },
{
    assert(e[0] == k);
    assert(e.subrange(1, bpr + 1 as int) =~= fb);
    assert(e.subrange(bpr + 1 as int, e.len() as int) =~= rest);
    lemma_unfilter_rows_unfold(e, up, bpp, bpr);
}

/// The filtered image data of scanlines: the first one, then the rest.
pub proof fn lemma_filter_rows_unfold(raw: Seq<u8>, up: Seq<u8>, first: bool, bpp: nat, bpr: nat)
    requires
        bpr >= 1,
        raw.len() >= bpr,
    ensures
        ({
            let row = raw.take(bpr as int);
            let k = if first {
                FILTER_SUB
            } else {
                chosen_filter(row, up, bpp)
            };
            &&& k <= FILTER_PAETH
            &&& filter_rows(raw, up, first, bpp, bpr) == seq![k] + filter_bytes(k, row, up, bpp)
                + filter_rows(raw.skip(bpr as int), row, false, bpp, bpr)
        }),
{
    reveal_with_fuel(filter_rows, 1);
    if !first {
        lemma_first_min_range(row_scores(raw.take(bpr as int), up, bpp), 5);
    }
}

/// The filtered image data of less than a scanline is empty.
pub proof fn lemma_filter_rows_short(raw: Seq<u8>, up: Seq<u8>, first: bool, bpp: nat, bpr: nat)
    requires
        raw.len() < bpr,
    ensures
        filter_rows(raw, up, first, bpp, bpr) == Seq::<u8>::empty(),
{
    reveal_with_fuel(filter_rows, 1);
}

/// The filtered image data of `n` scanlines holds `n` rows of `bpr + 1` bytes.
pub proof fn lemma_filter_rows_len(raw: Seq<u8>, up: Seq<u8>, first: bool, bpp: nat, bpr: nat, n: nat)
    requires
        bpr >= 1,
        raw.len() == n * bpr,
    ensures
        filter_rows(raw, up, first, bpp, bpr).len() == n * (bpr + 1),
    decreases n,
{
    if n == 0 {
        assert(raw.len() == 0) by (nonlinear_arith)
            requires
                raw.len() == n * bpr,
                n == 0,
        ;
        lemma_filter_rows_short(raw, up, first, bpp, bpr);
    } else {
        assert(raw.len() == (n - 1) * bpr + bpr) by (nonlinear_arith)
            requires
                raw.len() == n * bpr,
                n >= 1,
        ;
        let row = raw.take(bpr as int);
        lemma_filter_rows_unfold(raw, up, first, bpp, bpr);
        lemma_filter_rows_len(raw.skip(bpr as int), row, false, bpp, bpr, (n - 1) as nat);
        assert(n * (bpr + 1) == (n - 1) * (bpr + 1) + bpr + 1) by (nonlinear_arith)
            requires
                n >= 1,
        ;
    }
}

/// Unfiltering the first row of the filtered image data, then the rest.
pub proof fn lemma_unfilter_rows_unfold(f: Seq<u8>, prev: Seq<u8>, bpp: nat, bpr: nat)
    ensures
        f.len() < bpr + 1 ==> unfilter_rows(f, prev, bpp, bpr) == Some(Seq::<u8>::empty()),
        f.len() >= bpr + 1 && f[0] > FILTER_PAETH ==> unfilter_rows(f, prev, bpp, bpr) is None,
        f.len() >= bpr + 1 && f[0] <= FILTER_PAETH ==> unfilter_rows(f, prev, bpp, bpr) == match unfilter_rows(
            f.subrange(bpr + 1 as int, f.len() as int),
            recon_row(f[0], f.subrange(1, bpr + 1 as int), prev, bpp),
            bpp,
            bpr,
        ) {
            Some(rest) => Some(recon_row(f[0], f.subrange(1, bpr + 1 as int), prev, bpp) + rest),
            None => None,
        },
{
    reveal_with_fuel(unfilter_rows, 1);
}

/// Unfiltering the filtered scanlines of `raw` gives back `raw`, whatever the
/// filter chosen for each scanline.
pub proof fn lemma_unfilter_filter_rows(raw: Seq<u8>, up: Seq<u8>, first: bool, bpp: nat, bpr: nat)
    requires
        bpr >= 1,
        up.len() == bpr,
        raw.len() % bpr == 0,
    ensures
        unfilter_rows(filter_rows(raw, up, first, bpp, bpr), up, bpp, bpr) == Some(raw),
    decreases raw.len(),
{
    lemma_mod_step(raw.len(), bpr);
    if raw.len() < bpr {
        lemma_filter_rows_short(raw, up, first, bpp, bpr);
        lemma_unfilter_rows_unfold(Seq::<u8>::empty(), up, bpp, bpr);
        assert(raw =~= Seq::<u8>::empty());
    } else {
        let row = raw.take(bpr as int);
        let k = if first {
            FILTER_SUB
        } else {
            chosen_filter(row, up, bpp)
        };
        lemma_filter_rows_unfold(raw, up, first, bpp, bpr);
        let fb = filter_bytes(k, row, up, bpp);
        let rest = filter_rows(raw.skip(bpr as int), row, false, bpp, bpr);
        lemma_recon_filter_row(k, row, up, bpp);
        lemma_unfilter_step(filter_rows(raw, up, first, bpp, bpr), k, fb, rest, up, row, bpp, bpr);
        lemma_unfilter_filter_rows(raw.skip(bpr as int), row, false, bpp, bpr);
        assert(row + raw.skip(bpr as int) =~= raw);
    }
}

/// The filtered image data of the scanlines of `raw` (`bpr` bytes each),
/// scanline `i` under the filter type `types[i]`, with `up` the scanline above
/// the first: as many scanlines as there are types, where `raw` holds them.
pub open spec fn filter_rows_with(
    raw: Seq<u8>,
    up: Seq<u8>,
    types: Seq<u8>,
    bpp: nat,
    bpr: nat,
) -> Seq<u8>
    decreases types.len(),
{
    if types.len() == 0 || bpr == 0 || raw.len() < bpr {
        Seq::empty()
    } else {
        let row = raw.take(bpr as int);
        seq![types[0]] + filter_bytes(types[0], row, up, bpp) + filter_rows_with(
            raw.skip(bpr as int),
            row,
            types.drop_first(),
            bpp,
            bpr,
        )
    }
}

/// Unfiltering gives back the scanlines whatever filter type each one was
/// filtered with; the filtered data holds a type byte and `bpr` bytes for
/// each scanline.
pub proof fn lemma_unfilter_filter_rows_with(
    raw: Seq<u8>,
    up: Seq<u8>,
    types: Seq<u8>,
    bpp: nat,
    bpr: nat,
)
    requires
        bpr >= 1,
        up.len() == bpr,
        raw.len() == types.len() * bpr,
        forall|i: int| 0 <= i < types.len() ==> #[trigger] types[i] <= FILTER_PAETH,
    ensures
        filter_rows_with(raw, up, types, bpp, bpr).len() == types.len() * (bpr + 1),
        unfilter_rows(filter_rows_with(raw, up, types, bpp, bpr), up, bpp, bpr) == Some(raw),
    decreases types.len(),
{
    let n = types.len();
    if n == 0 {
        assert(raw.len() == 0) by (nonlinear_arith)
            requires
                raw.len() == n * bpr,
                n == 0,
        ;
        lemma_unfilter_rows_unfold(Seq::<u8>::empty(), up, bpp, bpr);
        assert(raw =~= Seq::<u8>::empty());
    } else {
        assert(raw.len() == (n - 1) * bpr + bpr) by (nonlinear_arith)
            requires
                raw.len() == n * bpr,
                n >= 1,
        ;
        let row = raw.take(bpr as int);
        let k = types[0];
        let tail = types.drop_first();
        assert forall|i: int| 0 <= i < tail.len() implies #[trigger] tail[i] <= FILTER_PAETH by {
            assert(tail[i] == types[i + 1]);
        }
        let fb = filter_bytes(k, row, up, bpp);
        let rest = filter_rows_with(raw.skip(bpr as int), row, tail, bpp, bpr);
        lemma_unfilter_filter_rows_with(raw.skip(bpr as int), row, tail, bpp, bpr);
        lemma_recon_filter_row(k, row, up, bpp);
        lemma_unfilter_step(filter_rows_with(raw, up, types, bpp, bpr), k, fb, rest, up, row, bpp, bpr);
        assert(row + raw.skip(bpr as int) =~= raw);
        assert(n * (bpr + 1) == (n - 1) * (bpr + 1) + bpr + 1) by (nonlinear_arith)
            requires
                n >= 1,
        ;
    }
}

} // verus!

//! The hint: a K x 256 bit matrix with bounded Hamming weight, the
//! `MakeHint`/`UseHint` operations lifted to vectors, and the hint byte
//! encoding of FIPS 204 — omega index bytes listing the true columns row by
//! row, then one cumulative count byte per row.
use vstd::prelude::*;

use crate::param::Q;
use crate::poly::{Polynomial, PolynomialVector};
use crate::round::{make_hint_fe, make_hint_spec, use_hint_fe, use_hint_spec};

verus! {

/// A K x 256 bit matrix.
pub struct Hint {
    pub rows: Vec<Vec<bool>>,
}

/// The number of true bits among the first `j` of a row.
pub open spec fn row_weight(row: Seq<bool>, j: int) -> int
    decreases j,
{
    if j <= 0 {
        0
    } else {
        row_weight(row, j - 1) + if row[j - 1] {
            1int
        } else {
            0int
        }
    }
}

/// The total number of true bits in the first `i` rows.
pub open spec fn hint_weight(h: Seq<Seq<bool>>, i: int) -> int
    decreases i,
{
    if i <= 0 {
        0
    } else {
        hint_weight(h, i - 1) + row_weight(h[i - 1], 256)
    }
}

/// The column indices of the true bits among the first `j` of a row, in
/// increasing order.
pub open spec fn row_indices(row: Seq<bool>, j: int) -> Seq<u8>
    decreases j,
{
    if j <= 0 {
        Seq::empty()
    } else {
        row_indices(row, j - 1) + if row[j - 1] {
            seq![(j - 1) as u8]
        } else {
            Seq::empty()
        }
    }
}

/// The index bytes of the first `i` rows, concatenated.
pub open spec fn hint_indices(h: Seq<Seq<bool>>, i: int) -> Seq<u8>
    decreases i,
{
    if i <= 0 {
        Seq::empty()
    } else {
        hint_indices(h, i - 1) + row_indices(h[i - 1], 256)
    }
}

/// Weights are nonnegative and bounded by the prefix length.
pub proof fn lemma_row_weight_bounds(row: Seq<bool>, j: int)
    requires
        0 <= j,
    ensures
        0 <= row_weight(row, j) <= j,
        row_indices(row, j).len() == row_weight(row, j),
    decreases j,
{
    if j > 0 {
        lemma_row_weight_bounds(row, j - 1);
    }
}

/// The total weight is nonnegative, monotone in the number of rows, and
/// matches the length of the concatenated index bytes.
pub proof fn lemma_hint_weight_bounds(h: Seq<Seq<bool>>, i: int)
    requires
        0 <= i,
    ensures
        0 <= hint_weight(h, i) <= 256 * i,
        hint_indices(h, i).len() == hint_weight(h, i),
        forall|t: int| 0 <= t <= i ==> #[trigger] hint_weight(h, t) <= hint_weight(h, i),
    decreases i,
{
    if i > 0 {
        lemma_hint_weight_bounds(h, i - 1);
        lemma_row_weight_bounds(h[i - 1], 256);
    }
}

/// The index bytes of one row list exactly its true columns, in strictly
/// increasing order.
proof fn lemma_row_indices_props(row: Seq<bool>, j: int)
    requires
        0 <= j <= 256,
    ensures
        row_indices(row, j).len() == row_weight(row, j),
        forall|t: int|
            0 <= t < row_indices(row, j).len() ==> (#[trigger] row_indices(row, j)[t] as int) < j
                && row[row_indices(row, j)[t] as int],
        forall|t1: int, t2: int|
            0 <= t1 < t2 < row_indices(row, j).len() ==> #[trigger] row_indices(row, j)[t1]
                < #[trigger] row_indices(row, j)[t2],
        forall|x: int|
            0 <= x < j && row[x] ==> exists|t: int|
                0 <= t < row_indices(row, j).len() && row_indices(row, j)[t] == x,
    decreases j,
{
    lemma_row_weight_bounds(row, j);
    if j > 0 {
        lemma_row_indices_props(row, j - 1);
        let prev = row_indices(row, j - 1);
        if row[j - 1] {
            assert forall|x: int|
                0 <= x < j && row[x] implies exists|t: int|
                0 <= t < row_indices(row, j).len() && row_indices(row, j)[t] == x by {
                if x == j - 1 {
                    assert(row_indices(row, j)[prev.len() as int] == x);
                } else {
                    let t = choose|t: int| 0 <= t < prev.len() && prev[t] == x;
                    assert(row_indices(row, j)[t] == x);
                }
            }
        } else {
            assert(row_indices(row, j) =~= prev);
        }
    }
}

/// The index bytes of row `i` sit at offset `hint_weight(h, i)` inside the
/// concatenated index bytes of the first `kk` rows.
proof fn lemma_hint_indices_at(h: Seq<Seq<bool>>, i: int, kk: int)
    requires
        0 <= i < kk,
    ensures
        forall|u: int|
            0 <= u < row_weight(h[i], 256) ==> #[trigger] hint_indices(h, kk)[hint_weight(h, i)
                + u] == row_indices(h[i], 256)[u],
    decreases kk,
{
    lemma_hint_weight_bounds(h, i);
    lemma_row_weight_bounds(h[i], 256);
    lemma_hint_weight_bounds(h, kk - 1);
    if i == kk - 1 {
        lemma_hint_weight_bounds(h, i);
    } else {
        lemma_hint_indices_at(h, i, kk - 1);
        lemma_hint_weight_bounds(h, i + 1);
        assert forall|u: int|
            0 <= u < row_weight(h[i], 256) implies #[trigger] hint_indices(h, kk)[hint_weight(
            h,
            i,
        ) + u] == row_indices(h[i], 256)[u] by {
            assert(hint_weight(h, i) + u < hint_weight(h, i + 1));
            assert(hint_weight(h, i + 1) <= hint_weight(h, kk - 1));
        }
    }
}

/// An encoded well-formed hint is a valid encoding, and its index bytes set
/// exactly the bits of the hint: the two directions of the hint codec meet.
pub proof fn lemma_hint_encoding_faithful(bytes: Seq<u8>, hv: Seq<Seq<bool>>, omega: int, k: int)
    requires
        1 <= k <= 8,
        1 <= omega <= 255,
        hv.len() == k,
        hint_weight(hv, k) <= omega,
        hint_encoded(bytes, hv, omega, k),
    ensures
        valid_hint_bytes(bytes, k, omega),
        hint_bits_match(bytes, hv, omega, k),
{
    lemma_hint_weight_bounds(hv, k);
    // the cumulative counts are the partial weights
    assert forall|i: int| 0 <= i <= k implies #[trigger] cum(bytes, omega, i) == hint_weight(
        hv,
        i,
    ) by {
        if i > 0 {
            assert(bytes[omega + (i - 1)] == hint_weight(hv, i));
        }
    }
    assert forall|i: int| 0 <= i < k implies cum(bytes, omega, i) <= #[trigger] cum(
        bytes,
        omega,
        i + 1,
    ) <= omega by {
        lemma_hint_weight_bounds(hv, i + 1);
        lemma_hint_weight_bounds(hv, k);
    }
    // each segment's bytes are the row's sorted index list
    assert forall|i: int, u: int|
        0 <= i < k && 0 <= u < row_weight(hv[i], 256) implies #[trigger] bytes[hint_weight(hv, i)
        + u] == row_indices(hv[i], 256)[u] by {
        lemma_hint_indices_at(hv, i, k);
        lemma_hint_weight_bounds(hv, i + 1);
        lemma_hint_weight_bounds(hv, i);
        lemma_row_weight_bounds(hv[i], 256);
        assert(hint_weight(hv, i) + u < hint_weight(hv, i + 1));
        assert(bytes.subrange(0, hint_weight(hv, k)) == hint_indices(hv, k));
        assert(bytes.subrange(0, hint_weight(hv, k))[hint_weight(hv, i) + u] == bytes[hint_weight(
            hv,
            i,
        ) + u]);
    }
    assert forall|i: int, t: int|
        0 <= i < k && cum(bytes, omega, i) < t && t < #[trigger] cum(bytes, omega, i + 1) implies bytes[t
        - 1] < #[trigger] bytes[t] by {
        lemma_row_indices_props(hv[i], 256);
        lemma_row_weight_bounds(hv[i], 256);
        let w0 = hint_weight(hv, i);
        let u = t - w0;
        assert(cum(bytes, omega, i) == w0 && cum(bytes, omega, i + 1) == hint_weight(hv, i + 1));
        assert(0 <= u - 1 && u < row_weight(hv[i], 256));
        assert(bytes[w0 + (u - 1)] == row_indices(hv[i], 256)[u - 1]);
        assert(bytes[w0 + u] == row_indices(hv[i], 256)[u]);
        assert(t - 1 == w0 + (u - 1) && t == w0 + u);
    }
    assert forall|i: int, j: int|
        0 <= i < k && 0 <= j < 256 implies (#[trigger] hv[i][j] <==> exists|t: int|
        cum(bytes, omega, i) <= t < cum(bytes, omega, i + 1) && bytes[t] == j) by {
        lemma_row_indices_props(hv[i], 256);
        let w0 = hint_weight(hv, i);
        let w1 = hint_weight(hv, i + 1);
        if hv[i][j] {
            let u = choose|u: int|
                0 <= u < row_indices(hv[i], 256).len() && row_indices(hv[i], 256)[u] == j;
            assert(bytes[w0 + u] == row_indices(hv[i], 256)[u]);
            assert(cum(bytes, omega, i) <= w0 + u < cum(bytes, omega, i + 1) && bytes[w0 + u]
                == j);
        } else {
            if exists|t: int| cum(bytes, omega, i) <= t < cum(bytes, omega, i + 1) && bytes[t]
                == j {
                let t = choose|t: int|
                    cum(bytes, omega, i) <= t < cum(bytes, omega, i + 1) && bytes[t] == j;
                lemma_row_weight_bounds(hv[i], 256);
                assert(cum(bytes, omega, i) == w0 && cum(bytes, omega, i + 1) == w1);
                assert(0 <= t - w0 < row_weight(hv[i], 256));
                assert(bytes[w0 + (t - w0)] == row_indices(hv[i], 256)[t - w0]);
                assert(hv[i][row_indices(hv[i], 256)[t - w0] as int]);
            }
        }
    }
}

/// The hint codec round trip: a decoded hint whose bits match the encoding
/// of a well-formed hint is that hint.
pub proof fn lemma_hint_round_trip(
    bytes: Seq<u8>,
    hv1: Seq<Seq<bool>>,
    hv2: Seq<Seq<bool>>,
    omega: int,
    k: int,
)
    requires
        1 <= k <= 8,
        1 <= omega <= 255,
        hv1.len() == k,
        hint_weight(hv1, k) <= omega,
        hint_encoded(bytes, hv1, omega, k),
        hint_bits_match(bytes, hv2, omega, k),
    ensures
        forall|i: int, j: int| 0 <= i < k && 0 <= j < 256 ==> #[trigger] hv1[i][j] == hv2[i][j],
{
    lemma_hint_encoding_faithful(bytes, hv1, omega, k);
    assert forall|i: int, j: int|
        0 <= i < k && 0 <= j < 256 implies #[trigger] hv1[i][j] == hv2[i][j] by {
        assert(hv1[i][j] <==> exists|t: int|
            cum(bytes, omega, i) <= t < cum(bytes, omega, i + 1) && bytes[t] == j);
        assert(hv2[i][j] <==> exists|t: int|
            cum(bytes, omega, i) <= t < cum(bytes, omega, i + 1) && bytes[t] == j);
    }
}

impl Hint {
    /// Well-formed: `k` rows of 256 bits.
    pub open spec fn wf(&self, k: int) -> bool {
        self.rows@.len() == k && forall|i: int|
            0 <= i < k ==> (#[trigger] self.rows@[i]).len() == 256
    }

    /// The view as a sequence of rows.
    pub open spec fn view_rows(&self) -> Seq<Seq<bool>> {
        self.rows@.map_values(|r: Vec<bool>| r@)
    }

    /// `MakeHint` over whole vectors: one bit per coefficient pair.
    pub fn new(z: &PolynomialVector, r: &PolynomialVector, tg: u32, k: usize) -> (h: Hint)
        requires
            z.wf(k as int),
            r.wf(k as int),
            tg == 190464 || tg == 523776,
        ensures
            h.wf(k as int),
            forall|i: int, j: int|
                0 <= i < k && 0 <= j < 256 ==> h.view_rows()[i][j] == make_hint_spec(
                    z.polys@[i].coeffs@[j] as int,
                    r.polys@[i].coeffs@[j] as int,
                    tg as int,
                ),
    {
        let mut rows: Vec<Vec<bool>> = Vec::new();
        let mut i: usize = 0;
        while i < k
            invariant
                i <= k,
                z.wf(k as int),
                r.wf(k as int),
                tg == 190464 || tg == 523776,
                rows@.len() == i,
                forall|a: int| 0 <= a < i ==> (#[trigger] rows@[a]).len() == 256,
                forall|a: int, j: int|
                    0 <= a < i && 0 <= j < 256 ==> rows@[a]@[j] == make_hint_spec(
                        z.polys@[a].coeffs@[j] as int,
                        r.polys@[a].coeffs@[j] as int,
                        tg as int,
                    ),
            decreases k - i,
        {
            let mut row: Vec<bool> = Vec::new();
            let mut j: usize = 0;
            while j < 256
                invariant
                    j <= 256,
                    i < k,
                    z.wf(k as int),
                    r.wf(k as int),
                    tg == 190464 || tg == 523776,
                    row@.len() == j,
                    forall|s: int|
                        0 <= s < j ==> row@[s] == make_hint_spec(
                            z.polys@[i as int].coeffs@[s] as int,
                            r.polys@[i as int].coeffs@[s] as int,
                            tg as int,
                        ),
                decreases 256 - j,
            {
                row.push(make_hint_fe(z.polys[i].coeffs[j], r.polys[i].coeffs[j], tg));
                j = j + 1;
            }
            rows.push(row);
            i = i + 1;
        }
        Hint { rows }
    }

    /// The total number of true bits.
    pub fn hamming_weight(&self, k: usize) -> (w: usize)
        requires
            self.wf(k as int),
            k <= 8,
        ensures
            w == hint_weight(self.view_rows(), k as int),
    {
        let mut w: usize = 0;
        let mut i: usize = 0;
        proof {
            lemma_hint_weight_bounds(self.view_rows(), k as int);
        }
        while i < k
            invariant
                i <= k <= 8,
                self.wf(k as int),
                w == hint_weight(self.view_rows(), i as int),
                w <= 256 * i,
            decreases k - i,
        {
            let mut j: usize = 0;
            let ghost wrow = self.view_rows()[i as int];
            while j < 256
                invariant
                    j <= 256,
                    i < k <= 8,
                    self.wf(k as int),
                    wrow == self.view_rows()[i as int],
                    w == hint_weight(self.view_rows(), i as int) + row_weight(wrow, j as int),
                    hint_weight(self.view_rows(), i as int) <= 256 * i,
                    0 <= row_weight(wrow, j as int) <= j,
                decreases 256 - j,
            {
                proof {
                    lemma_row_weight_bounds(wrow, j + 1);
                }
                if self.rows[i][j] {
                    w = w + 1;
                }
                j = j + 1;
            }
            proof {
                lemma_hint_weight_bounds(self.view_rows(), i + 1);
            }
            i = i + 1;
        }
        w
    }

    /// `UseHint` over a whole vector: correct the high part of every
    /// coefficient by its hint bit.
    pub fn use_hint(&self, r: &PolynomialVector, tg: u32, k: usize) -> (w1: PolynomialVector)
        requires
            self.wf(k as int),
            r.wf(k as int),
            tg == 190464 || tg == 523776,
        ensures
            w1.wf(k as int),
            forall|i: int, j: int|
                0 <= i < k && 0 <= j < 256 ==> w1.polys@[i].coeffs@[j] == use_hint_spec(
                    self.view_rows()[i][j],
                    r.polys@[i].coeffs@[j] as int,
                    tg as int,
                ),
            forall|i: int, j: int|
                0 <= i < k && 0 <= j < 256 ==> w1.polys@[i].coeffs@[j] < (Q - 1) / (tg as int),
    {
        let mut out: Vec<Polynomial> = Vec::new();
        let mut i: usize = 0;
        while i < k
            invariant
                i <= k,
                self.wf(k as int),
                r.wf(k as int),
                tg == 190464 || tg == 523776,
                out@.len() == i,
                forall|a: int| 0 <= a < i ==> (#[trigger] out@[a]).wf(),
                forall|a: int, j: int|
                    0 <= a < i && 0 <= j < 256 ==> out@[a].coeffs@[j] == use_hint_spec(
                        self.view_rows()[a][j],
                        r.polys@[a].coeffs@[j] as int,
                        tg as int,
                    ),
                forall|a: int, j: int|
                    0 <= a < i && 0 <= j < 256 ==> out@[a].coeffs@[j] < (Q - 1) / (tg as int),
            decreases k - i,
        {
            let mut c: Vec<u32> = Vec::new();
            let mut j: usize = 0;
            while j < 256
                invariant
                    j <= 256,
                    i < k,
                    self.wf(k as int),
                    r.wf(k as int),
                    tg == 190464 || tg == 523776,
                    c@.len() == j,
                    forall|s: int|
                        0 <= s < j ==> c@[s] == use_hint_spec(
                            self.view_rows()[i as int][s],
                            r.polys@[i as int].coeffs@[s] as int,
                            tg as int,
                        ),
                    forall|s: int| 0 <= s < j ==> c@[s] < (Q - 1) / (tg as int),
                decreases 256 - j,
            {
                c.push(use_hint_fe(self.rows[i][j], r.polys[i].coeffs[j], tg));
                j = j + 1;
            }
            out.push(Polynomial { coeffs: c });
            i = i + 1;
        }
        PolynomialVector { polys: out }
    }
}

/// The cumulative count read from an encoded hint: 0 before the first row,
/// then the count byte of row `i - 1`.
pub open spec fn cum(bytes: Seq<u8>, omega: int, i: int) -> int {
    if i <= 0 {
        0
    } else {
        bytes[omega + i - 1] as int
    }
}

/// A well-formed hint encoding: nondecreasing cumulative counts bounded by
/// omega, strictly increasing indices within each row's segment, and zero
/// padding after the last used index byte.
pub open spec fn valid_hint_bytes(bytes: Seq<u8>, k: int, omega: int) -> bool {
    &&& bytes.len() == omega + k
    &&& (forall|i: int|
        0 <= i < k ==> cum(bytes, omega, i) <= #[trigger] cum(bytes, omega, i + 1) <= omega)
    &&& (forall|i: int, t: int|
        0 <= i < k && cum(bytes, omega, i) < t && t < #[trigger] cum(bytes, omega, i + 1)
            ==> bytes[t - 1] < #[trigger] bytes[t])
    &&& (forall|t: int| cum(bytes, omega, k) <= t < omega ==> bytes[t] == 0)
}

/// What it means for a byte string to be the encoding of a hint: the index
/// bytes in row order, zero padding up to omega, then the cumulative counts.
pub open spec fn hint_encoded(seg: Seq<u8>, hv: Seq<Seq<bool>>, omega: int, k: int) -> bool {
    &&& seg.len() == omega + k
    &&& seg.subrange(0, hint_weight(hv, k)) == hint_indices(hv, k)
    &&& (forall|t: int| hint_weight(hv, k) <= t < omega ==> seg[t] == 0)
    &&& (forall|i: int| 0 <= i < k ==> #[trigger] seg[omega + i] == hint_weight(hv, i + 1))
}

/// The bit at (row i, column j) is set exactly when `j` appears among the
/// index bytes of row i's segment.
pub open spec fn hint_bits_match(bytes: Seq<u8>, hv: Seq<Seq<bool>>, omega: int, k: int) -> bool {
    forall|i: int, j: int|
        0 <= i < k && 0 <= j < 256 ==> (#[trigger] hv[i][j] <==> exists|t: int|
            cum(bytes, omega, i) <= t < cum(bytes, omega, i + 1) && bytes[t] == j)
}

/// `HintEncode`: omega index bytes (the true columns, row by row), then one
/// cumulative count byte per row.
pub fn hint_encode(h: &Hint, omega: usize, k: usize) -> (r: Vec<u8>)
    requires
        h.wf(k as int),
        1 <= k <= 8,
        1 <= omega <= 255,
        hint_weight(h.view_rows(), k as int) <= omega,
    ensures
        r@.len() == omega + k,
        hint_encoded(r@, h.view_rows(), omega as int, k as int),
{
    let ghost hv = h.view_rows();
    let mut out: Vec<u8> = Vec::new();
    let mut counts: Vec<u8> = Vec::new();
    let mut i: usize = 0;
    proof {
        lemma_hint_weight_bounds(hv, k as int);
    }
    while i < k
        invariant
            i <= k <= 8,
            omega <= 255,
            h.wf(k as int),
            hv == h.view_rows(),
            hint_weight(hv, k as int) <= omega,
            out@ == hint_indices(hv, i as int),
            out@.len() == hint_weight(hv, i as int),
            counts@.len() == i,
            forall|a: int| 0 <= a < i ==> counts@[a] == hint_weight(hv, a + 1),
        decreases k - i,
    {
        let ghost row = hv[i as int];
        let mut j: usize = 0;
        while j < 256
            invariant
                j <= 256,
                i < k <= 8,
                omega <= 255,
                h.wf(k as int),
                hv == h.view_rows(),
                row == hv[i as int],
                hint_weight(hv, k as int) <= omega,
                out@ == hint_indices(hv, i as int) + row_indices(row, j as int),
            decreases 256 - j,
        {
            if h.rows[i][j] {
                out.push(j as u8);
            }
            proof {
                assert(out@ =~= hint_indices(hv, i as int) + row_indices(row, j + 1));
            }
            j = j + 1;
        }
        proof {
            assert(out@ =~= hint_indices(hv, i + 1));
            lemma_hint_weight_bounds(hv, i + 1);
            lemma_hint_weight_bounds(hv, k as int);
            assert(hint_weight(hv, i + 1) <= hint_weight(hv, k as int));
        }
        counts.push(out.len() as u8);
        i = i + 1;
    }
    let ghost indices = out@;
    proof {
        lemma_hint_weight_bounds(hv, k as int);
    }
    while out.len() < omega
        invariant
            omega <= 255,
            indices.len() <= out@.len() <= omega,
            out@.subrange(0, indices.len() as int) == indices,
            forall|t: int| indices.len() <= t < out@.len() ==> out@[t] == 0,
        decreases omega - out@.len(),
    {
        out.push(0);
        proof {
            assert(out@.subrange(0, indices.len() as int) =~= indices);
        }
    }
    let mut i2: usize = 0;
    while i2 < k
        invariant
            i2 <= k,
            omega <= 255,
            hv == h.view_rows(),
            indices == hint_indices(hv, k as int),
            indices.len() == hint_weight(hv, k as int),
            indices.len() <= omega,
            counts@.len() == k,
            forall|a: int| 0 <= a < k ==> counts@[a] == hint_weight(hv, a + 1),
            out@.len() == omega + i2,
            out@.subrange(0, indices.len() as int) == indices,
            forall|t: int| indices.len() <= t < omega ==> out@[t] == 0,
            forall|a: int| 0 <= a < i2 ==> #[trigger] out@[omega + a] == counts@[a],
        decreases k - i2,
    {
        out.push(counts[i2]);
        proof {
            assert(out@.subrange(0, indices.len() as int) =~= indices);
        }
        i2 = i2 + 1;
    }
    out
}

/// `HintDecode`: parse and validate an encoded hint.  Returns the hint whose
/// bit at (row i, column j) is set exactly when `j` appears among the index
/// bytes of row i's segment; fails exactly on a malformed encoding.
#[verifier::rlimit(100)]
#[verifier::spinoff_prover]
pub fn hint_decode(bytes: &Vec<u8>, omega: usize, k: usize) -> (r: Option<Hint>)
    requires
        1 <= k <= 8,
        1 <= omega <= 255,
        bytes@.len() == omega + k,
    ensures
        r is Some <==> valid_hint_bytes(bytes@, k as int, omega as int),
        r matches Some(h) ==> h.wf(k as int) && hint_bits_match(
            bytes@,
            h.view_rows(),
            omega as int,
            k as int,
        ),
{
    let mut rows: Vec<Vec<bool>> = Vec::new();
    let mut prev: usize = 0;
    let mut i: usize = 0;
    while i < k
        invariant
            i <= k <= 8,
            1 <= omega <= 255,
            bytes@.len() == omega + k,
            prev == cum(bytes@, omega as int, i as int),
            prev <= omega,
            rows@.len() == i,
            forall|a: int| 0 <= a < i ==> (#[trigger] rows@[a]).len() == 256,
            forall|a: int|
                0 <= a < i ==> cum(bytes@, omega as int, a) <= #[trigger] cum(
                    bytes@,
                    omega as int,
                    a + 1,
                ) <= omega,
            forall|a: int, t: int|
                0 <= a < i && cum(bytes@, omega as int, a) < t && t < #[trigger] cum(
                    bytes@,
                    omega as int,
                    a + 1,
                ) ==> bytes@[t - 1] < #[trigger] bytes@[t],
            forall|a: int, j: int|
                0 <= a < i && 0 <= j < 256 ==> (rows@[a]@[j] <==> exists|t: int|
                    cum(bytes@, omega as int, a) <= t < cum(bytes@, omega as int, a + 1)
                        && bytes@[t] == j),
        decreases k - i,
    {
        let c = bytes[omega + i] as usize;
        if c < prev || c > omega {
            proof {
                assert(cum(bytes@, omega as int, i + 1) == c);
                assert(!valid_hint_bytes(bytes@, k as int, omega as int));
            }
            return None;
        }
        let mut row: Vec<bool> = Vec::new();
        let mut z: usize = 0;
        while z < 256
            invariant
                z <= 256,
                row@.len() == z,
                forall|j: int| 0 <= j < z ==> !row@[j],
            decreases 256 - z,
        {
            row.push(false);
            z = z + 1;
        }
        let mut t: usize = prev;
        while t < c
            invariant
                prev <= t <= c,
                c <= omega,
                i < k <= 8,
                bytes@.len() == omega + k,
                c == cum(bytes@, omega as int, i + 1),
                prev == cum(bytes@, omega as int, i as int),
                row@.len() == 256,
                forall|s: int| prev < s < t ==> bytes@[s - 1] < #[trigger] bytes@[s],
                forall|j: int|
                    0 <= j < 256 ==> (row@[j] <==> exists|s: int|
                        prev <= s < t && bytes@[s] == j),
            decreases c - t,
        {
            if t > prev && bytes[t - 1] >= bytes[t] {
                proof {
                    assert(!valid_hint_bytes(bytes@, k as int, omega as int));
                }
                return None;
            }
            let idx = bytes[t] as usize;
            row.set(idx, true);
            proof {
                assert forall|j: int|
                    0 <= j < 256 implies (row@[j] <==> exists|s: int|
                    prev <= s < t + 1 && bytes@[s] == j) by {
                    if j == idx {
                        assert(prev <= t < t + 1 && bytes@[t as int] == j);
                    }
                }
            }
            t = t + 1;
        }
        rows.push(row);
        prev = c;
        i = i + 1;
    }
    let mut t: usize = prev;
    while t < omega
        invariant
            prev <= t <= omega,
            bytes@.len() == omega + k,
            prev == cum(bytes@, omega as int, k as int),
            forall|s: int| prev <= s < t ==> #[trigger] bytes@[s] == 0,
        decreases omega - t,
    {
        if bytes[t] != 0 {
            proof {
                assert(!valid_hint_bytes(bytes@, k as int, omega as int));
            }
            return None;
        }
        t = t + 1;
    }
    Some(Hint { rows })
}

} // verus!

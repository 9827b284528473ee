//! Running aggregates over qualifying records, and the summary derived from
//! them.
use vstd::prelude::*;
use crate::container::{decode_spec, gz_decodes, gz_members_decoded, header_end, BamReader, DecodeError};
use crate::bytes::le_u32;
use crate::record::{insert_size, qualifies, Record, SECONDARY_SUPPLEMENTARY_MASK};

verus! {

/// The largest insert size a record can carry: the magnitude of the most
/// negative 32-bit template length.
pub const MAX_INSERT_SIZE: u64 = 0x8000_0000;

/// The number of occurrences in a histogram.
pub open spec fn hist_total(h: Seq<nat>) -> nat
    decreases h.len(),
{
    if h.len() == 0 {
        0
    } else {
        hist_total(h.drop_last()) + h.last()
    }
}

/// The sum of the insert sizes in a histogram.
pub open spec fn hist_weighted(h: Seq<nat>) -> nat
    decreases h.len(),
{
    if h.len() == 0 {
        0
    } else {
        hist_weighted(h.drop_last()) + ((h.len() - 1) as nat) * h.last()
    }
}

/// The sum of the squared insert sizes in a histogram.
pub open spec fn hist_sq_weighted(h: Seq<nat>) -> nat
    decreases h.len(),
{
    if h.len() == 0 {
        0
    } else {
        hist_sq_weighted(h.drop_last()) + ((h.len() - 1) as nat) * ((h.len() - 1) as nat) * h.last()
    }
}

/// The aggregates as mathematical values.
pub ghost struct Tally {
    pub all_count: nat,
    pub all_insert_sum: nat,
    pub count: nat,
    pub insert_sum: nat,
    pub histogram: Seq<nat>,
}

/// Nothing counted yet, with one histogram bin for each size in `0..=upper`.
pub open spec fn empty_tally(upper: nat) -> Tally {
    Tally {
        all_count: 0,
        all_insert_sum: 0,
        count: 0,
        insert_sum: 0,
        histogram: Seq::new(upper + 1, |i: int| 0nat),
    }
}

/// Folds one record into the aggregates: a qualifying record counts in the
/// "all" aggregates, and also in the bounded ones when its insert size has a
/// histogram bin.
pub open spec fn accept_spec(a: Tally, r: Record) -> Tally {
    if !qualifies(r) {
        a
    } else {
        let t = insert_size(r);
        if t < a.histogram.len() {
            Tally {
                all_count: a.all_count + 1,
                all_insert_sum: a.all_insert_sum + t,
                count: a.count + 1,
                insert_sum: a.insert_sum + t,
                histogram: a.histogram.update(t as int, a.histogram[t as int] + 1),
            }
        } else {
            Tally { all_count: a.all_count + 1, all_insert_sum: a.all_insert_sum + t, ..a }
        }
    }
}

/// The aggregates after the records `recs`, in order.
pub open spec fn tally_of(recs: Seq<Record>, upper: nat) -> Tally
    decreases recs.len(),
{
    if recs.len() == 0 {
        empty_tally(upper)
    } else {
        accept_spec(tally_of(recs.drop_last(), upper), recs.last())
    }
}

/// The records from position `p` to the end of the bytes, or the first
/// error met on the way.
pub open spec fn records_spec(s: Seq<u8>, p: int) -> Result<Seq<Record>, DecodeError>
    decreases s.len() - p,
{
    match decode_spec(s, p) {
        Err(e) => Err(e),
        Ok(None) => Ok(Seq::empty()),
        Ok(Some((r, n))) => {
            if p < n {
                match records_spec(s, n) {
                    Ok(rest) => Ok(seq![r] + rest),
                    Err(e) => Err(e),
                }
            } else {
                Err(DecodeError::Truncated)
            }
        },
    }
}

proof fn lemma_update_totals(h: Seq<nat>, t: int)
    requires
        0 <= t < h.len(),
    ensures
        hist_total(h.update(t, h[t] + 1)) == hist_total(h) + 1,
        hist_weighted(h.update(t, h[t] + 1)) == hist_weighted(h) + t,
    decreases h.len(),
{
    let u = h.update(t, h[t] + 1);
    if t == h.len() - 1 {
        assert(u.drop_last() =~= h.drop_last());
        let m = (h.len() - 1) as nat;
        assert(m * (h[t] + 1) == m * h[t] + m) by (nonlinear_arith);
    } else {
        lemma_update_totals(h.drop_last(), t);
        assert(u.drop_last() =~= h.drop_last().update(t, h[t] + 1));
    }
}

proof fn lemma_prefix_step(h: Seq<nat>, k: int)
    requires
        0 <= k < h.len(),
    ensures
        hist_total(h.take(k + 1)) == hist_total(h.take(k)) + h[k],
        hist_weighted(h.take(k + 1)) == hist_weighted(h.take(k)) + k * h[k],
        hist_sq_weighted(h.take(k + 1)) == hist_sq_weighted(h.take(k)) + k * k * h[k],
{
    assert(h.take(k + 1).drop_last() =~= h.take(k));
}

proof fn lemma_prefix_le(h: Seq<nat>, k: int)
    requires
        0 <= k <= h.len(),
    ensures
        hist_total(h.take(k)) <= hist_total(h),
        hist_weighted(h.take(k)) <= hist_weighted(h),
    decreases h.len() - k,
{
    if k == h.len() {
        assert(h.take(k) =~= h);
    } else {
        lemma_prefix_step(h, k);
        lemma_prefix_le(h, k + 1);
    }
}

proof fn lemma_bin_le_total(h: Seq<nat>, i: int)
    requires
        0 <= i < h.len(),
    ensures
        h[i] <= hist_total(h),
    decreases h.len(),
{
    if i < h.len() - 1 {
        lemma_bin_le_total(h.drop_last(), i);
    }
}

/// Whether `q` is the first histogram bin at which the running count
/// exceeds `t`.
pub open spec fn first_exceeding(h: Seq<nat>, t: nat, q: int) -> bool {
    &&& 0 <= q < h.len()
    &&& hist_total(h.take(q + 1)) > t
    &&& forall|j: int| 0 <= j < q ==> hist_total(#[trigger] h.take(j + 1)) <= t
}

/// The histogram counts of `upper + 1` bins survive the fold, and the bins
/// sum to the bounded count, which never exceeds the count of all pairs.
pub proof fn lemma_histogram_sums_to_count(recs: Seq<Record>, upper: nat)
    ensures
        tally_of(recs, upper).histogram.len() == upper + 1,
        hist_total(tally_of(recs, upper).histogram) == tally_of(recs, upper).count,
        tally_of(recs, upper).count <= tally_of(recs, upper).all_count,
    decreases recs.len(),
{
    if recs.len() == 0 {
        lemma_zero_histogram(upper + 1);
    } else {
        let prev = tally_of(recs.drop_last(), upper);
        lemma_histogram_sums_to_count(recs.drop_last(), upper);
        let r = recs.last();
        if qualifies(r) && insert_size(r) < prev.histogram.len() {
            lemma_update_totals(prev.histogram, insert_size(r) as int);
        }
    }
}

proof fn lemma_zero_histogram(n: nat)
    ensures
        hist_total(Seq::new(n, |i: int| 0nat)) == 0,
        hist_weighted(Seq::new(n, |i: int| 0nat)) == 0,
    decreases n,
{
    if n > 0 {
        lemma_zero_histogram((n - 1) as nat);
        assert(Seq::new(n, |i: int| 0nat).drop_last() =~= Seq::new((n - 1) as nat, |i: int| 0nat));
        let m = (n - 1) as nat;
        assert(m * 0nat == 0) by (nonlinear_arith);
    }
}

/// The running aggregates of one scan.
pub struct Aggregates {
    /// Qualifying pairs, whatever their insert size.
    pub all_count: u64,
    /// Sum of the insert sizes of all qualifying pairs.
    pub all_insert_sum: u128,
    /// Qualifying pairs whose insert size has a histogram bin.
    pub count: u64,
    /// Sum of the insert sizes of those pairs.
    pub insert_sum: u128,
    /// Occurrences of each insert size in `0..=upper`.
    pub histogram: Vec<u64>,
}

impl View for Aggregates {
    type V = Tally;

    open spec fn view(&self) -> Tally {
        Tally {
            all_count: self.all_count as nat,
            all_insert_sum: self.all_insert_sum as nat,
            count: self.count as nat,
            insert_sum: self.insert_sum as nat,
            histogram: self.histogram@.map_values(|x: u64| x as nat),
        }
    }
}

impl Aggregates {
    /// The histogram has a bin, sums to the bounded count and weighs to the
    /// bounded sum; no bin past the largest possible insert size is used; the
    /// sums stay within what their counts allow.
    pub open spec fn wf(&self) -> bool {
        &&& self.histogram@.len() >= 1
        &&& self.count <= self.all_count
        &&& hist_total(self@.histogram) == self.count
        &&& hist_weighted(self@.histogram) == self.insert_sum
        &&& self.all_insert_sum <= self.all_count * MAX_INSERT_SIZE
        &&& self.insert_sum <= self.count * MAX_INSERT_SIZE
        &&& forall|k: int| MAX_INSERT_SIZE < k < self.histogram@.len() ==> self.histogram@[k] == 0
    }

    /// Empty aggregates with one bin for each insert size in `0..=upper`.
    pub fn new(upper: usize) -> (r: Aggregates)
        requires
            upper < usize::MAX,
        ensures
            r.wf(),
            r@ == empty_tally(upper as nat),
    {
        let mut histogram: Vec<u64> = Vec::new();
        let mut i: usize = 0;
        while i <= upper
            invariant
                upper < usize::MAX,
                i <= upper + 1,
                histogram@ == Seq::new(i as nat, |j: int| 0u64),
            decreases upper + 1 - i,
        {
            histogram.push(0u64);
            i = i + 1;
        }
        let r = Aggregates { all_count: 0, all_insert_sum: 0, count: 0, insert_sum: 0, histogram };
        proof {
            assert(r@.histogram =~= Seq::new(upper as nat + 1, |j: int| 0nat));
            lemma_zero_histogram(upper as nat + 1);
        }
        r
    }

    /// Folds one record in: a qualifying record always counts in the "all"
    /// aggregates, and in the bounded ones when its insert size is at most
    /// the histogram's upper bound.
    pub fn accept(&mut self, record: &Record)
        requires
            old(self).wf(),
            old(self).all_count < u64::MAX,
        ensures
            final(self).wf(),
            final(self)@ == accept_spec(old(self)@, *record),
            final(self).histogram@.len() == old(self).histogram@.len(),
    {
        if !record.is_qualifying_pair() {
            return;
        }
        let t = record.insert_size();
        proof {
            assert(self.all_insert_sum + t <= (self.all_count + 1) * MAX_INSERT_SIZE) by (nonlinear_arith)
                requires
                    self.all_insert_sum <= self.all_count * MAX_INSERT_SIZE,
                    t <= MAX_INSERT_SIZE,
            ;
        }
        self.all_count = self.all_count + 1;
        self.all_insert_sum = self.all_insert_sum + t as u128;
        let tu = t as usize;
        if tu < self.histogram.len() {
            let ghost h = self@.histogram;
            proof {
                lemma_bin_le_total(h, t as int);
                lemma_update_totals(h, t as int);
                assert(self.insert_sum + t <= (self.count + 1) * MAX_INSERT_SIZE) by (nonlinear_arith)
                    requires
                        self.insert_sum <= self.count * MAX_INSERT_SIZE,
                        t <= MAX_INSERT_SIZE,
                ;
            }
            let v = self.histogram[tu];
            self.histogram.set(tu, v + 1);
            self.count = self.count + 1;
            self.insert_sum = self.insert_sum + t as u128;
            proof {
                assert(self@.histogram =~= h.update(t as int, h[t as int] + 1));
            }
        }
    }
}

/// What is derived from the aggregates once the scan is over.
pub struct Summary {
    /// Qualifying pairs, whatever their insert size.
    pub all_count: u64,
    /// Sum of their insert sizes.
    pub all_insert_sum: u128,
    /// Qualifying pairs within the histogram.
    pub count: u64,
    /// Sum of their insert sizes.
    pub insert_sum: u128,
    /// Sum of the squares of their insert sizes.
    pub sq_insert_sum: u128,
    /// First bin where the running count exceeds a quarter of `count`.
    pub q1: usize,
    /// First bin where the running count exceeds half of `count`.
    pub q2: usize,
    /// First bin where the running count exceeds three quarters of `count`.
    pub q3: usize,
    /// The largest bin count.
    pub height_max: u64,
}

/// The three quantile thresholds of a count: the floors of a quarter, a half
/// and three quarters of it.
pub open spec fn quartile_thresholds(count: nat) -> (nat, nat, nat) {
    (count / 4, count / 2, (3 * count) / 4)
}

impl Aggregates {
    /// Derives the summary; `None` when no qualifying pair fell within the
    /// histogram, so that no mean or quantile exists.
    pub fn finalize(&self) -> (r: Option<Summary>)
        requires
            self.wf(),
        ensures
            r is None <==> self.count == 0,
            r matches Some(s) ==> {
                let h = self@.histogram;
                let (t1, t2, t3) = quartile_thresholds(self.count as nat);
                &&& 0 < s.count <= s.all_count
                &&& s.all_insert_sum <= s.all_count * MAX_INSERT_SIZE
                &&& s.insert_sum <= s.count * MAX_INSERT_SIZE
                &&& s.all_count == self.all_count
                &&& s.all_insert_sum == self.all_insert_sum
                &&& s.count == self.count
                &&& s.insert_sum == self.insert_sum
                &&& s.sq_insert_sum == hist_sq_weighted(h)
                &&& first_exceeding(h, t1, s.q1 as int)
                &&& first_exceeding(h, t2, s.q2 as int)
                &&& first_exceeding(h, t3, s.q3 as int)
                &&& forall|j: int| 0 <= j < h.len() ==> h[j] <= s.height_max
                &&& exists|j: int| 0 <= j < h.len() && h[j] == s.height_max
            },
    {
        if self.count == 0 {
            return None;
        }
        let ghost hv = self@.histogram;
        let n = self.histogram.len();
        let count = self.count;
        let t1: u64 = count / 4;
        let t2: u64 = count / 2;
        let t3: u64 = ((count as u128) * 3 / 4) as u64;
        let mut accum: u64 = 0;
        let mut sq: u128 = 0;
        let ghost mut w: nat = 0;
        let mut height: u64 = 0;
        let ghost mut hi: int = 0;
        let mut q1: usize = 0;
        let mut q2: usize = 0;
        let mut q3: usize = 0;
        let mut f1 = false;
        let mut f2 = false;
        let mut f3 = false;
        let mut k: usize = 0;
        while k < n
            invariant
                self.wf(),
                hv == self@.histogram,
                n == hv.len(),
                count == self.count,
                count > 0,
                t1 == count / 4,
                t2 == count / 2,
                t3 == (3 * count) / 4,
                k <= n,
                accum == hist_total(hv.take(k as int)),
                w == hist_weighted(hv.take(k as int)),
                sq == hist_sq_weighted(hv.take(k as int)),
                sq <= MAX_INSERT_SIZE * w,
                w <= self.insert_sum,
                k > 0 ==> 0 <= hi < k && hv[hi] == height,
                k == 0 ==> height == 0,
                forall|j: int| 0 <= j < k ==> hv[j] <= height,
                f1 ==> first_exceeding(hv, t1 as nat, q1 as int),
                !f1 ==> forall|j: int| 0 <= j < k ==> hist_total(#[trigger] hv.take(j + 1)) <= t1,
                f2 ==> first_exceeding(hv, t2 as nat, q2 as int),
                !f2 ==> forall|j: int| 0 <= j < k ==> hist_total(#[trigger] hv.take(j + 1)) <= t2,
                f3 ==> first_exceeding(hv, t3 as nat, q3 as int),
                !f3 ==> forall|j: int| 0 <= j < k ==> hist_total(#[trigger] hv.take(j + 1)) <= t3,
            decreases n - k,
        {
            let v = self.histogram[k];
            proof {
                lemma_prefix_step(hv, k as int);
                lemma_prefix_le(hv, k as int + 1);
                lemma_prefix_le(hv, k as int);
                assert(hv[k as int] == v as nat);
            }
            accum = accum + v;
            if !f1 && accum > t1 {
                q1 = k;
                f1 = true;
            }
            if !f2 && accum > t2 {
                q2 = k;
                f2 = true;
            }
            if !f3 && accum > t3 {
                q3 = k;
                f3 = true;
            }
            if v > 0 {
                let kk = k as u128;
                let vv = v as u128;
                proof {
                    assert(k <= MAX_INSERT_SIZE);
                    assert(kk * kk <= 0x4000_0000_0000_0000) by (nonlinear_arith)
                        requires
                            kk <= MAX_INSERT_SIZE,
                    ;
                    assert(kk * kk * vv <= 0x4000_0000_0000_0000 * 0xffff_ffff_ffff_ffff) by (nonlinear_arith)
                        requires
                            kk * kk <= 0x4000_0000_0000_0000,
                            vv <= 0xffff_ffff_ffff_ffff,
                    ;
                    assert(kk * kk * vv <= MAX_INSERT_SIZE * (kk * vv)) by (nonlinear_arith)
                        requires
                            kk <= MAX_INSERT_SIZE,
                    ;
                    assert(self.insert_sum <= self.count * MAX_INSERT_SIZE);
                    assert(w + kk * vv <= self.insert_sum);
                    assert(MAX_INSERT_SIZE * (w + kk * vv) <= MAX_INSERT_SIZE * (self.count * MAX_INSERT_SIZE))
                        by (nonlinear_arith)
                        requires
                            w + kk * vv <= self.insert_sum,
                            self.insert_sum <= self.count * MAX_INSERT_SIZE,
                    ;
                    assert(self.count * MAX_INSERT_SIZE * MAX_INSERT_SIZE <= u64::MAX * MAX_INSERT_SIZE * MAX_INSERT_SIZE)
                        by (nonlinear_arith)
                        requires
                            self.count <= u64::MAX,
                    ;
                    assert(MAX_INSERT_SIZE * (w + kk * vv) == MAX_INSERT_SIZE * w + MAX_INSERT_SIZE * (kk * vv))
                        by (nonlinear_arith);
                }
                sq = sq + kk * kk * vv;
            } else {
                proof {
                    assert(k * k * hv[k as int] == 0) by (nonlinear_arith)
                        requires
                            hv[k as int] == 0,
                    ;
                    assert(k * hv[k as int] == 0) by (nonlinear_arith)
                        requires
                            hv[k as int] == 0,
                    ;
                }
            }
            proof {
                w = w + (k as nat) * hv[k as int];
            }
            if k == 0 || v > height {
                height = v;
                proof {
                    hi = k as int;
                }
            }
            k = k + 1;
        }
        proof {
            assert(hv.take(n as int) =~= hv);
            assert(accum == count);
            assert(t1 < count && t2 < count && t3 < count);
            assert(hist_total(hv.take(n as int - 1 + 1)) == count);
            assert(f1 && f2 && f3);
            assert(hist_sq_weighted(hv) == sq);
        }
        Some(Summary {
            all_count: self.all_count,
            all_insert_sum: self.all_insert_sum,
            count,
            insert_sum: self.insert_sum,
            sq_insert_sum: sq,
            q1,
            q2,
            q3,
            height_max: height,
        })
    }
}

/// The quantile cut-points never decrease: the first bins at which the
/// running count exceeds a quarter, a half and three quarters of the count
/// come in that order.
pub proof fn lemma_quantiles_ordered(h: Seq<nat>, count: nat, q1: int, q2: int, q3: int)
    requires
        first_exceeding(h, quartile_thresholds(count).0, q1),
        first_exceeding(h, quartile_thresholds(count).1, q2),
        first_exceeding(h, quartile_thresholds(count).2, q3),
    ensures
        q1 <= q2 <= q3,
{
    assert(count / 4 <= count / 2 <= (3 * count) / 4) by (nonlinear_arith);
    if q2 < q1 {
        assert(hist_total(h.take(q2 + 1)) <= count / 4);
    }
    if q3 < q2 {
        assert(hist_total(h.take(q3 + 1)) <= count / 2);
    }
}

/// The sum of the squared distances of a histogram's occurrences from `x`.
pub open spec fn hist_dev(h: Seq<nat>, x: int) -> int
    decreases h.len(),
{
    if h.len() == 0 {
        0
    } else {
        hist_dev(h.drop_last(), x) + h.last() * ((h.len() - 1) - x) * ((h.len() - 1) - x)
    }
}

/// Whether every occurrence in the histogram has one and the same size.
pub open spec fn single_size(h: Seq<nat>) -> bool {
    forall|i: int, j: int| 0 <= i < h.len() && 0 <= j < h.len() && h[i] > 0 && h[j] > 0 ==> i == j
}

proof fn lemma_dev_step(s0: int, w0: int, n0: int, d0: int, c: int, m: int, x: int)
    requires
        d0 == s0 - 2 * x * w0 + x * x * n0,
    ensures
        (s0 + m * m * c) - 2 * x * (w0 + m * c) + x * x * (n0 + c) == d0 + c * (m - x) * (m - x),
{
    assert(2 * x * (w0 + m * c) == 2 * x * w0 + 2 * x * m * c) by (nonlinear_arith);
    assert(x * x * (n0 + c) == x * x * n0 + x * x * c) by (nonlinear_arith);
    assert(c * (m - x) * (m - x) == m * m * c - 2 * x * m * c + x * x * c) by (nonlinear_arith);
}

proof fn lemma_dev_identity(h: Seq<nat>, x: int)
    ensures
        hist_dev(h, x) == hist_sq_weighted(h) - 2 * x * hist_weighted(h) + x * x * hist_total(h),
        hist_dev(h, x) >= 0,
    decreases h.len(),
{
    if h.len() > 0 {
        let g = h.drop_last();
        lemma_dev_identity(g, x);
        let m = h.len() - 1;
        let c = h.last() as int;
        assert(c * (m - x) * (m - x) >= 0) by (nonlinear_arith)
            requires
                c >= 0,
        ;
        assert(hist_sq_weighted(h) == hist_sq_weighted(g) + m * m * c);
        assert(hist_weighted(h) == hist_weighted(g) + m * c);
        assert(hist_total(h) == hist_total(g) + c);
        assert(hist_dev(h, x) == hist_dev(g, x) + c * (m - x) * (m - x));
        lemma_dev_step(hist_sq_weighted(g) as int, hist_weighted(g) as int, hist_total(g) as int,
            hist_dev(g, x), c, m, x);
    } else {
        assert(2 * x * 0 == 0 && x * x * 0 == 0) by (nonlinear_arith);
    }
}

proof fn lemma_dev_zero(h: Seq<nat>, x: int)
    requires
        x >= h.len(),
        hist_dev(h, x) == 0,
    ensures
        forall|i: int| 0 <= i < h.len() ==> h[i] == 0,
    decreases h.len(),
{
    if h.len() > 0 {
        let g = h.drop_last();
        let m = h.len() - 1;
        let c = h.last() as int;
        lemma_dev_identity(g, x);
        assert(c * (m - x) * (m - x) >= 0) by (nonlinear_arith)
            requires
                c >= 0,
        ;
        assert(c == 0) by (nonlinear_arith)
            requires
                c * (m - x) * (m - x) == 0,
                m < x,
                c >= 0,
        ;
        lemma_dev_zero(g, x);
        assert forall|i: int| 0 <= i < h.len() implies h[i] == 0 by {
            if i < m {
                assert(g[i] == h[i]);
            }
        }
    }
}

proof fn lemma_dev_of_zeros(h: Seq<nat>, x: int)
    requires
        forall|i: int| 0 <= i < h.len() ==> h[i] == 0,
    ensures
        hist_dev(h, x) == 0,
    decreases h.len(),
{
    if h.len() > 0 {
        let g = h.drop_last();
        assert forall|i: int| 0 <= i < g.len() implies g[i] == 0 by {
            assert(g[i] == h[i]);
        }
        lemma_dev_of_zeros(g, x);
        let m = h.len() - 1;
        assert(h.last() == 0);
        assert(0 * (m - x) * (m - x) == 0) by (nonlinear_arith);
    }
}

proof fn lemma_spread_step(n0: int, w0: int, s0: int, c: int, m: int)
    ensures
        (n0 + c) * (s0 + m * m * c) - (w0 + m * c) * (w0 + m * c)
            == (n0 * s0 - w0 * w0) + c * (s0 - 2 * m * w0 + m * m * n0),
{
    assert((n0 + c) * (s0 + m * m * c) == n0 * s0 + n0 * (m * m * c) + c * s0 + c * (m * m * c))
        by (nonlinear_arith);
    assert((w0 + m * c) * (w0 + m * c) == w0 * w0 + 2 * (w0 * (m * c)) + (m * c) * (m * c))
        by (nonlinear_arith);
    assert(c * (m * m * c) == (m * c) * (m * c)) by (nonlinear_arith);
    assert(n0 * (m * m * c) == c * (m * m * n0)) by (nonlinear_arith);
    assert(w0 * (m * c) == c * (m * w0)) by (nonlinear_arith);
    assert(c * (s0 - 2 * m * w0 + m * m * n0) == c * s0 - 2 * (c * (m * w0)) + c * (m * m * n0))
        by (nonlinear_arith);
}

/// A secondary or supplementary record leaves the aggregates as they were,
/// whatever its other flag bits.
pub proof fn lemma_secondary_excluded(a: Tally, r: Record)
    requires
        r.flag & SECONDARY_SUPPLEMENTARY_MASK != 0,
    ensures
        accept_spec(a, r) == a,
{
}

/// A secondary or supplementary record inserted anywhere among the records
/// leaves the aggregates of the whole sequence as they were.
pub proof fn lemma_secondary_excluded_anywhere(recs: Seq<Record>, i: int, r: Record, upper: nat)
    requires
        0 <= i <= recs.len(),
        r.flag & SECONDARY_SUPPLEMENTARY_MASK != 0,
    ensures
        tally_of(recs.insert(i, r), upper) == tally_of(recs, upper),
    decreases recs.len(),
{
    let with = recs.insert(i, r);
    if i == recs.len() {
        assert(with.drop_last() =~= recs);
        assert(with.last() == r);
    } else {
        lemma_secondary_excluded_anywhere(recs.drop_last(), i, r, upper);
        assert(with.drop_last() =~= recs.drop_last().insert(i, r));
        assert(with.last() == recs.last());
    }
}

/// A qualifying record past `upper`, appended to the records, adds one pair
/// and its insert size to the "all" aggregates and leaves the bounded count,
/// the bounded sum and the histogram as they were.
pub proof fn lemma_beyond_upper_appended(recs: Seq<Record>, r: Record, upper: nat)
    requires
        qualifies(r),
        insert_size(r) > upper,
    ensures
        tally_of(recs.push(r), upper).all_count == tally_of(recs, upper).all_count + 1,
        tally_of(recs.push(r), upper).all_insert_sum == tally_of(recs, upper).all_insert_sum + insert_size(r),
        tally_of(recs.push(r), upper).count == tally_of(recs, upper).count,
        tally_of(recs.push(r), upper).insert_sum == tally_of(recs, upper).insert_sum,
        tally_of(recs.push(r), upper).histogram == tally_of(recs, upper).histogram,
{
    lemma_histogram_sums_to_count(recs, upper);
    assert(recs.push(r).drop_last() =~= recs);
}

/// A qualifying record whose insert size is past the histogram counts in the
/// "all" aggregates only.
pub proof fn lemma_beyond_upper(a: Tally, r: Record)
    requires
        qualifies(r),
        insert_size(r) >= a.histogram.len(),
    ensures
        accept_spec(a, r).all_count == a.all_count + 1,
        accept_spec(a, r).all_insert_sum == a.all_insert_sum + insert_size(r),
        accept_spec(a, r).count == a.count,
        accept_spec(a, r).insert_sum == a.insert_sum,
        accept_spec(a, r).histogram == a.histogram,
{
}

/// Bytes that end exactly where a record would start end the scan cleanly;
/// bytes that end inside a record's length prefix or body are truncated.
pub proof fn lemma_end_of_stream(s: Seq<u8>, p: int)
    requires
        0 <= p <= s.len(),
    ensures
        p == s.len() ==> records_spec(s, p) == Ok::<Seq<Record>, DecodeError>(Seq::empty()),
        p < s.len() && (s.len() - p < 4 || s.len() - p - 4 < le_u32(s, p))
            ==> records_spec(s, p) == Err::<Seq<Record>, DecodeError>(DecodeError::Truncated),
{
}

/// The spread of a histogram grows, from that of all but its last bin, by
/// the last bin's count times the squared distances of the others from it.
proof fn lemma_spread_last(h: Seq<nat>)
    requires
        h.len() > 0,
    ensures
        hist_total(h) * hist_sq_weighted(h) - hist_weighted(h) * hist_weighted(h)
            == (hist_total(h.drop_last()) * hist_sq_weighted(h.drop_last())
                - hist_weighted(h.drop_last()) * hist_weighted(h.drop_last()))
                + h.last() * hist_dev(h.drop_last(), h.len() - 1),
        h.last() * hist_dev(h.drop_last(), h.len() - 1) >= 0,
{
    let g = h.drop_last();
    let m = h.len() - 1;
    let c = h.last() as int;
    let n0 = hist_total(g) as int;
    let w0 = hist_weighted(g) as int;
    let s0 = hist_sq_weighted(g) as int;
    lemma_dev_identity(g, m);
    let d = hist_dev(g, m);
    assert(hist_total(h) == n0 + c);
    assert(hist_weighted(h) == w0 + m * c);
    assert(hist_sq_weighted(h) == s0 + m * m * c);
    lemma_spread_step(n0, w0, s0, c, m);
    assert(c * d == c * (s0 - 2 * m * w0 + m * m * n0));
    assert(c * d >= 0) by (nonlinear_arith)
        requires
            c >= 0,
            d >= 0,
    ;
}

/// The spread behind the standard deviation, `count * Σ size² - (Σ size)²`
/// (the variance times `count²`), is never negative, and it is zero exactly
/// when all occurrences have the same size.
pub proof fn lemma_spread_nonneg(h: Seq<nat>)
    ensures
        hist_total(h) * hist_sq_weighted(h) >= hist_weighted(h) * hist_weighted(h),
        hist_total(h) * hist_sq_weighted(h) == hist_weighted(h) * hist_weighted(h) <==> single_size(h),
    decreases h.len(),
{
    if h.len() > 0 {
        let g = h.drop_last();
        let m = h.len() - 1;
        let c = h.last() as int;
        lemma_spread_nonneg(g);
        lemma_spread_last(h);
        let d = hist_dev(g, m);
        lemma_dev_identity(g, m);
        if single_size(h) {
            lemma_single_size_prefix(h);
            if c > 0 {
                assert forall|i: int| 0 <= i < g.len() implies g[i] == 0 by {
                    assert(g[i] == h[i]);
                    if h[i] > 0 {
                        assert(h[m] > 0);
                    }
                }
                lemma_dev_of_zeros(g, m);
            }
            assert(c * d == 0) by (nonlinear_arith)
                requires
                    c == 0 || d == 0,
            ;
        }
        if hist_total(h) * hist_sq_weighted(h) == hist_weighted(h) * hist_weighted(h) {
            assert(c * d == 0);
            if c > 0 {
                assert(d == 0) by (nonlinear_arith)
                    requires
                        c * d == 0,
                        c > 0,
                ;
                lemma_dev_zero(g, m);
            }
            assert forall|i: int, j: int|
                0 <= i < h.len() && 0 <= j < h.len() && h[i] > 0 && h[j] > 0 implies i == j by {
                if i < m {
                    assert(g[i] == h[i]);
                }
                if j < m {
                    assert(g[j] == h[j]);
                }
            }
        }
    }
}

proof fn lemma_single_size_prefix(h: Seq<nat>)
    requires
        h.len() > 0,
        single_size(h),
    ensures
        single_size(h.drop_last()),
{
    let g = h.drop_last();
    assert forall|i: int, j: int|
        0 <= i < g.len() && 0 <= j < g.len() && g[i] > 0 && g[j] > 0 implies i == j by {
        assert(g[i] == h[i] && g[j] == h[j]);
    }
}

/// `sum / count` rounded to hundredths, halves rounded up, and scaled by 100.
pub open spec fn hundredths(sum: nat, count: nat) -> nat {
    (200 * sum + count) / (2 * count)
}

/// The mean `sum / count`, rounded to two decimals, in hundredths.
pub fn mean_hundredths(sum: u128, count: u64) -> (r: u128)
    requires
        count > 0,
        sum <= count * MAX_INSERT_SIZE,
    ensures
        r == hundredths(sum as nat, count as nat),
{
    proof {
        assert(200 * sum <= 200 * (count * MAX_INSERT_SIZE)) by (nonlinear_arith)
            requires
                sum <= count * MAX_INSERT_SIZE,
        ;
        assert(count * MAX_INSERT_SIZE <= u64::MAX * MAX_INSERT_SIZE) by (nonlinear_arith)
            requires
                count <= u64::MAX,
        ;
    }
    (200 * sum + count as u128) / (2 * count as u128)
}

/// Reads every remaining record and folds the qualifying ones into fresh
/// aggregates with bins for `0..=upper`.
pub fn scan(reader: &mut BamReader, upper: usize) -> (r: Result<Aggregates, DecodeError>)
    requires
        old(reader).wf(),
        upper < usize::MAX,
    ensures
        match records_spec(old(reader).data(), old(reader).pos()) {
            Ok(recs) => {
                &&& r matches Ok(a)
                &&& a.wf()
                &&& a@ == tally_of(recs, upper as nat)
                &&& a.histogram@.len() == upper + 1
            },
            Err(e) => r == Err::<Aggregates, DecodeError>(e),
        },
{
    let ghost s = reader.data();
    let ghost p0 = reader.pos();
    let ghost mut done: Seq<Record> = Seq::empty();
    let mut agg = Aggregates::new(upper);
    let mut record = Record::new();
    loop
        invariant
            reader.wf(),
            reader.data() == s,
            s == old(reader).data(),
            p0 == old(reader).pos(),
            0 <= p0 <= reader.pos(),
            agg.wf(),
            agg.all_count <= reader.pos() - p0,
            agg@ == tally_of(done, upper as nat),
            agg.histogram@.len() == upper + 1,
            records_spec(s, p0) == match records_spec(s, reader.pos()) {
                Ok(rest) => Ok::<Seq<Record>, DecodeError>(done + rest),
                Err(e) => Err::<Seq<Record>, DecodeError>(e),
            },
        decreases s.len() - reader.pos(),
    {
        let ghost before = reader.pos();
        match reader.read_into(&mut record) {
            Ok(true) => {
                proof {
                    assert(before < reader.pos());
                    assert(reader.pos() <= s.len());
                    assert(s.len() <= usize::MAX);
                    assert(done.push(record) + records_spec(s, reader.pos())->Ok_0
                        =~= done + (seq![record] + records_spec(s, reader.pos())->Ok_0));
                    assert(done.push(record).drop_last() =~= done);
                    done = done.push(record);
                }
                agg.accept(&record);
            },
            Ok(false) => {
                proof {
                    assert(records_spec(s, reader.pos()) == Ok::<Seq<Record>, DecodeError>(Seq::empty()));
                    assert(done + Seq::<Record>::empty() =~= done);
                }
                return Ok(agg);
            },
            Err(e) => {
                return Err(e);
            },
        }
    }
}

/// Opens a gzip-compressed container and folds all its records into
/// aggregates with bins for `0..=upper`.
pub fn scan_compressed(b: &[u8], upper: usize) -> (r: Result<Aggregates, DecodeError>)
    requires
        upper < usize::MAX,
    ensures
        match r {
            Ok(a) => {
                &&& gz_decodes(b@)
                &&& a.wf()
                &&& a.histogram@.len() == upper + 1
                &&& hist_total(a@.histogram) == a.count
                &&& a.count <= a.all_count
                &&& header_end(gz_members_decoded(b@)) matches Ok(p)
                &&& records_spec(gz_members_decoded(b@), p) matches Ok(recs)
                &&& a@ == tally_of(recs, upper as nat)
            },
            Err(e) => {
                ||| (e == DecodeError::BadCompression && !gz_decodes(b@))
                ||| (gz_decodes(b@) && header_end(gz_members_decoded(b@)) == Err::<int, DecodeError>(e))
                ||| (gz_decodes(b@) && (header_end(gz_members_decoded(b@)) matches Ok(p)
                    && records_spec(gz_members_decoded(b@), p) == Err::<Seq<Record>, DecodeError>(e)))
            },
        },
{
    let mut reader = BamReader::from_compressed(b)?;
    scan(&mut reader, upper)
}

} // verus!

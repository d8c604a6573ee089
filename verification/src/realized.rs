use vstd::prelude::*;

use crate::date::Date;
use crate::inventory::{abs_i, ChangeData, Inventory};
use crate::unrealized::URealized;

verus! {

/// One completed pairing of a closing inventory change against exactly one
/// open lot (or lot fragment) of the same size, with the realized gain.
///
/// `quantity` is the closing side's signed quantity, `close_basis` its
/// signed proceeds or cost, `open_basis` the matched lot's signed basis,
/// and `gain == close_basis + open_basis`.
#[derive(Clone, Copy, Debug, PartialEq, Eq, Structural)]
pub struct Realized {
    pub close_date: Date,
    pub quantity: i64,
    pub close_basis: i64,
    pub open_date: Date,
    pub open_basis: i64,
    pub gain: i64,
}

/// The realized match that pairs a closing change `c` with an open lot `l`.
pub open spec fn realize_of(c: ChangeData, l: URealized) -> Realized {
    Realized {
        close_date: c.date,
        quantity: c.quantity as i64,
        close_basis: c.basis as i64,
        open_date: l.date,
        open_basis: l.basis,
        gain: (c.basis + l.basis) as i64,
    }
}

/// `r` with its gain forced to zero: the close side is revalued at exactly
/// the open side's cost.
pub open spec fn zero_profit_of(r: Realized) -> Realized {
    Realized { close_basis: (-(r.open_basis as int)) as i64, gain: 0, ..r }
}

/// `r` with its close side forced to zero value: the whole open basis is
/// realized as the gain (a full loss of the cost basis).
pub open spec fn zero_value_of(r: Realized) -> Realized {
    Realized { close_basis: 0, gain: r.open_basis, ..r }
}

/// The sum of the signed gains of a sequence of matches.
pub open spec fn sum_gain(rs: Seq<Realized>) -> int
    decreases rs.len(),
{
    if rs.len() == 0 {
        0
    } else {
        sum_gain(rs.drop_last()) + rs.last().gain
    }
}

/// The sum of the magnitudes of the gains.
pub open spec fn sum_abs_gain(rs: Seq<Realized>) -> int
    decreases rs.len(),
{
    if rs.len() == 0 {
        0
    } else {
        sum_abs_gain(rs.drop_last()) + abs_i(rs.last().gain as int)
    }
}

/// The sum of the signed close-side quantities.
pub open spec fn sum_quantity(rs: Seq<Realized>) -> int
    decreases rs.len(),
{
    if rs.len() == 0 {
        0
    } else {
        sum_quantity(rs.drop_last()) + rs.last().quantity
    }
}

/// The sum of the magnitudes of the close-side quantities.
pub open spec fn sum_abs_quantity(rs: Seq<Realized>) -> int
    decreases rs.len(),
{
    if rs.len() == 0 {
        0
    } else {
        sum_abs_quantity(rs.drop_last()) + abs_i(rs.last().quantity as int)
    }
}

/// The sum of the signed close-side basis amounts (the proceeds).
pub open spec fn sum_close_basis(rs: Seq<Realized>) -> int
    decreases rs.len(),
{
    if rs.len() == 0 {
        0
    } else {
        sum_close_basis(rs.drop_last()) + rs.last().close_basis
    }
}

/// The sum of the magnitudes of the close-side basis amounts.
pub open spec fn sum_abs_close_basis(rs: Seq<Realized>) -> int
    decreases rs.len(),
{
    if rs.len() == 0 {
        0
    } else {
        sum_abs_close_basis(rs.drop_last()) + abs_i(rs.last().close_basis as int)
    }
}

/// The sum of the signed open-side basis amounts (the costs).
pub open spec fn sum_open_basis(rs: Seq<Realized>) -> int
    decreases rs.len(),
{
    if rs.len() == 0 {
        0
    } else {
        sum_open_basis(rs.drop_last()) + rs.last().open_basis
    }
}

/// The sum of the magnitudes of the open-side basis amounts.
pub open spec fn sum_abs_open_basis(rs: Seq<Realized>) -> int
    decreases rs.len(),
{
    if rs.len() == 0 {
        0
    } else {
        sum_abs_open_basis(rs.drop_last()) + abs_i(rs.last().open_basis as int)
    }
}

/// Every signed sum is bounded in magnitude by the matching magnitude sum,
/// and every magnitude sum is non-negative.
pub proof fn lemma_sums_abs(rs: Seq<Realized>)
    ensures
        abs_i(sum_gain(rs)) <= sum_abs_gain(rs),
        abs_i(sum_quantity(rs)) <= sum_abs_quantity(rs),
        abs_i(sum_close_basis(rs)) <= sum_abs_close_basis(rs),
        abs_i(sum_open_basis(rs)) <= sum_abs_open_basis(rs),
        sum_abs_gain(rs) >= 0,
        sum_abs_quantity(rs) >= 0,
        sum_abs_close_basis(rs) >= 0,
        sum_abs_open_basis(rs) >= 0,
    decreases rs.len(),
{
    if rs.len() > 0 {
        lemma_sums_abs(rs.drop_last());
    }
}

/// Every sum over a sequence splits at any index into the sums of the two
/// pieces.
pub proof fn lemma_sums_split(rs: Seq<Realized>, k: int)
    requires
        0 <= k <= rs.len(),
    ensures
        sum_gain(rs) == sum_gain(rs.subrange(0, k)) + sum_gain(rs.subrange(k, rs.len() as int)),
        sum_abs_gain(rs) == sum_abs_gain(rs.subrange(0, k)) + sum_abs_gain(
            rs.subrange(k, rs.len() as int),
        ),
        sum_quantity(rs) == sum_quantity(rs.subrange(0, k)) + sum_quantity(
            rs.subrange(k, rs.len() as int),
        ),
        sum_abs_quantity(rs) == sum_abs_quantity(rs.subrange(0, k)) + sum_abs_quantity(
            rs.subrange(k, rs.len() as int),
        ),
        sum_close_basis(rs) == sum_close_basis(rs.subrange(0, k)) + sum_close_basis(
            rs.subrange(k, rs.len() as int),
        ),
        sum_abs_close_basis(rs) == sum_abs_close_basis(rs.subrange(0, k)) + sum_abs_close_basis(
            rs.subrange(k, rs.len() as int),
        ),
        sum_open_basis(rs) == sum_open_basis(rs.subrange(0, k)) + sum_open_basis(
            rs.subrange(k, rs.len() as int),
        ),
        sum_abs_open_basis(rs) == sum_abs_open_basis(rs.subrange(0, k)) + sum_abs_open_basis(
            rs.subrange(k, rs.len() as int),
        ),
    decreases rs.len() - k,
{
    if k == rs.len() {
        assert(rs.subrange(0, k) =~= rs);
        assert(rs.subrange(k, rs.len() as int) =~= Seq::<Realized>::empty());
    } else {
        lemma_sums_split(rs.drop_last(), k);
        assert(rs.drop_last().subrange(0, k) =~= rs.subrange(0, k));
        assert(rs.subrange(k, rs.len() as int).drop_last() =~= rs.drop_last().subrange(
            k,
            rs.len() - 1,
        ));
        assert(rs.subrange(k, rs.len() as int).last() == rs.last());
    }
}

/// The magnitude sums of a prefix never exceed those of the whole sequence.
pub proof fn lemma_sums_prefix_bound(rs: Seq<Realized>, k: int)
    requires
        0 <= k <= rs.len(),
    ensures
        sum_abs_gain(rs.subrange(0, k)) <= sum_abs_gain(rs),
        sum_abs_quantity(rs.subrange(0, k)) <= sum_abs_quantity(rs),
        sum_abs_close_basis(rs.subrange(0, k)) <= sum_abs_close_basis(rs),
        sum_abs_open_basis(rs.subrange(0, k)) <= sum_abs_open_basis(rs),
{
    lemma_sums_split(rs, k);
    lemma_sums_abs(rs.subrange(k, rs.len() as int));
}

impl Realized {
    /// Builds one realized match; the gain is the close basis plus the open
    /// basis, which must fit in the gain field.
    pub fn new(c_date: Date, quantity: i64, c_basis: i64, o_date: Date, o_basis: i64) -> (r:
        Realized)
        requires
            i64::MIN as int <= c_basis + o_basis <= i64::MAX as int,
        ensures
            r == (Realized {
                close_date: c_date,
                quantity,
                close_basis: c_basis,
                open_date: o_date,
                open_basis: o_basis,
                gain: (c_basis + o_basis) as i64,
            }),
    {
        Realized {
            close_date: c_date,
            quantity,
            close_basis: c_basis,
            open_date: o_date,
            open_basis: o_basis,
            gain: c_basis + o_basis,
        }
    }

    /// Pairs a closing inventory change with the open lot it consumed,
    /// producing the realized match of the two.  The two sides must have
    /// equal and opposite quantities.
    pub fn match_close<T: Inventory>(inv: &T, inv_ur: &URealized) -> (r: Realized)
        requires
            inv.inv_wf(),
            inv.chg().quantity + inv_ur.quantity as int == 0,
            i64::MIN as int <= inv.chg().basis + inv_ur.basis as int <= i64::MAX as int,
        ensures
            r == realize_of(inv.chg(), *inv_ur),
    {
        proof {
            inv.lemma_chg_bounds();
        }
        Realized::new(inv.date(), inv.quantity(), inv.basis(), inv_ur.date, inv_ur.basis)
    }

    /// Revalues the close side at exactly the open side's cost, forcing the
    /// gain to zero.
    pub fn zero_profit(&mut self)
        requires
            old(self).open_basis != i64::MIN,
        ensures
            *final(self) == zero_profit_of(*old(self)),
    {
        self.close_basis = -self.open_basis;
        self.gain = 0;
    }

    /// Forces the close side to zero value, realizing the whole open basis
    /// as the gain.
    pub fn zero_value(&mut self)
        ensures
            *final(self) == zero_value_of(*old(self)),
    {
        self.close_basis = 0;
        self.gain = self.open_basis;
    }

    /// The date of the closing change.
    pub fn close_date(&self) -> (r: Date)
        ensures
            r == self.close_date,
    {
        self.close_date
    }

    /// The closing side's signed quantity.
    pub fn quantity(&self) -> (r: i64)
        ensures
            r == self.quantity,
    {
        self.quantity
    }

    /// The closing side's signed basis (proceeds when positive).
    pub fn close_basis(&self) -> (r: i64)
        ensures
            r == self.close_basis,
    {
        self.close_basis
    }

    /// The date of the open lot that was consumed.
    pub fn open_date(&self) -> (r: Date)
        ensures
            r == self.open_date,
    {
        self.open_date
    }

    /// The open lot's signed basis (cost when negative).
    pub fn open_basis(&self) -> (r: i64)
        ensures
            r == self.open_basis,
    {
        self.open_basis
    }

    /// The realized gain or loss of this match.
    pub fn realized(&self) -> (r: i64)
        ensures
            r == self.gain,
    {
        self.gain
    }
}

/// The total realized gain or loss over a list of matches.
pub fn total_realized(r: &[Realized]) -> (total: i64)
    requires
        sum_abs_gain(r@) <= i64::MAX as int,
    ensures
        total as int == sum_gain(r@),
{
    let mut total: i64 = 0;
    let mut i: usize = 0;
    while i < r.len()
        invariant
            0 <= i <= r.len(),
            total as int == sum_gain(r@.subrange(0, i as int)),
            sum_abs_gain(r@) <= i64::MAX as int,
        decreases r.len() - i,
    {
        proof {
            assert(r@.subrange(0, i + 1).drop_last() =~= r@.subrange(0, i as int));
            assert(r@.subrange(0, i + 1).last() == r@[i as int]);
            lemma_sums_abs(r@.subrange(0, i + 1));
            lemma_sums_prefix_bound(r@, i + 1);
        }
        total = total + r[i].gain;
        i = i + 1;
    }
    proof {
        assert(r@.subrange(0, r@.len() as int) =~= r@);
    }
    total
}

/// A grouping of one or more realized matches that share a close date: the
/// date, the unsigned total quantity, the summed proceeds (close side),
/// the summed costs (open side), and the recomputed total gain.  The
/// `open_dates` label is a free-form annotation for the open sides and is
/// left empty by the grouping below.
#[derive(Debug, PartialEq)]
pub struct RealizedCompact {
    pub date: Date,
    pub quantity: i64,
    pub proceeds: i64,
    pub open_dates: String,
    pub costs: i64,
    pub gain: i64,
}

impl RealizedCompact {
    /// Builds one summary row; the gain is the proceeds plus the costs,
    /// which must fit in the gain field.
    pub fn new(date: Date, quantity: i64, proceeds: i64, open_dates: String, costs: i64) -> (r:
        RealizedCompact)
        requires
            i64::MIN as int <= proceeds + costs <= i64::MAX as int,
        ensures
            r.date == date,
            r.quantity == quantity,
            r.proceeds == proceeds,
            r.open_dates == open_dates,
            r.costs == costs,
            r.gain as int == proceeds + costs,
    {
        RealizedCompact { date, quantity, proceeds, open_dates, costs, gain: proceeds + costs }
    }
}

/// Whether `c` is the summary row of the group `g` of realized matches:
/// it carries the group's shared close date, the magnitude of the summed
/// quantities, the summed proceeds and costs, their sum as the gain, and an
/// empty open-dates label.
pub open spec fn compact_matches(c: RealizedCompact, g: Seq<Realized>) -> bool {
    &&& g.len() > 0
    &&& c.date == g[0].close_date
    &&& c.quantity as int == abs_i(sum_quantity(g))
    &&& c.proceeds as int == sum_close_basis(g)
    &&& c.costs as int == sum_open_basis(g)
    &&& c.gain as int == sum_close_basis(g) + sum_open_basis(g)
    &&& c.open_dates@ == Seq::<char>::empty()
}

/// Whether position `i` holds the first occurrence of its value in `s`.
pub open spec fn is_first_occurrence(s: Seq<Date>, i: int) -> bool {
    forall|j: int| 0 <= j < i ==> s[j] != s[i]
}

/// The positions, in increasing order, at which a value appears in `s` for
/// the first time.
pub open spec fn first_starts(s: Seq<Date>) -> Seq<int>
    decreases s.len(),
{
    if s.len() == 0 {
        Seq::empty()
    } else if is_first_occurrence(s, s.len() - 1) {
        first_starts(s.drop_last()).push(s.len() - 1)
    } else {
        first_starts(s.drop_last())
    }
}

/// The shape of the first-occurrence positions: they lie inside the
/// sequence, are strictly increasing, start at position zero when the
/// sequence is not empty, and are exactly the first occurrences.
pub proof fn lemma_first_starts(s: Seq<Date>)
    ensures
        forall|k: int|
            0 <= k < first_starts(s).len() ==> 0 <= #[trigger] first_starts(s)[k] < s.len(),
        forall|k: int|
            0 < k < first_starts(s).len() ==> first_starts(s)[k - 1] < #[trigger] first_starts(
                s,
            )[k],
        s.len() > 0 ==> first_starts(s).len() > 0 && first_starts(s)[0] == 0,
        forall|k: int|
            0 <= k < first_starts(s).len() ==> is_first_occurrence(
                s,
                #[trigger] first_starts(s)[k],
            ),
    decreases s.len(),
{
    if s.len() > 0 {
        lemma_first_starts(s.drop_last());
        assert forall|k: int|
            0 <= k < first_starts(s.drop_last()).len() implies is_first_occurrence(
            s,
            #[trigger] first_starts(s.drop_last())[k],
        ) by {
            let idx = first_starts(s.drop_last())[k];
            assert(0 <= idx < s.drop_last().len());
            assert(is_first_occurrence(s.drop_last(), idx));
            assert forall|j: int| 0 <= j < idx implies s[j] != s[idx] by {
                assert(s.drop_last()[j] != s.drop_last()[idx]);
            }
        }
    }
}

/// Returns, for each value of `s` in order of first appearance, the pair of
/// the position where it first appears and the position where the next
/// first appearance follows (or the length of `s` for the last pair).
///
/// Pairing consecutive first-occurrence positions partitions `s` only when
/// equal values stand contiguously; a value repeated non-contiguously stays
/// grouped with whatever lies between its occurrences.
pub fn group_by_index(s: &[Date]) -> (r: Vec<(usize, usize)>)
    ensures
        r@.len() == first_starts(s@).len(),
        forall|k: int|
            0 <= k < r@.len() ==> #[trigger] r@[k].0 as int == first_starts(s@)[k],
        forall|k: int|
            0 <= k < r@.len() ==> #[trigger] r@[k].1 as int == (if k + 1 < r@.len() {
                first_starts(s@)[k + 1]
            } else {
                s@.len() as int
            }),
{
    let mut firsts: Vec<usize> = Vec::new();
    let mut i: usize = 0;
    while i < s.len()
        invariant
            0 <= i <= s.len(),
            firsts@.len() == first_starts(s@.take(i as int)).len(),
            forall|k: int|
                0 <= k < firsts@.len() ==> #[trigger] firsts@[k] as int == first_starts(
                    s@.take(i as int),
                )[k],
            forall|k: int| 0 <= k < firsts@.len() ==> #[trigger] firsts@[k] < i,
        decreases s.len() - i,
    {
        let mut j: usize = 0;
        let mut seen = false;
        while j < i
            invariant
                0 <= j <= i < s@.len(),
                seen <==> exists|t: int| 0 <= t < j && s@[t] == s@[i as int],
            decreases i - j,
        {
            if s[j] == s[i] {
                seen = true;
            }
            j = j + 1;
        }
        proof {
            assert(s@.take(i + 1).drop_last() =~= s@.take(i as int));
            assert(s@.take(i + 1).last() == s@[i as int]);
            assert(forall|t: int| 0 <= t <= i ==> s@.take(i + 1)[t] == s@[t]);
            assert(is_first_occurrence(s@.take(i + 1), i as int) <==> !seen);
        }
        if !seen {
            firsts.push(i);
        }
        i = i + 1;
    }
    proof {
        assert(s@.take(s@.len() as int) =~= s@);
    }
    let mut r: Vec<(usize, usize)> = Vec::new();
    let mut k: usize = 0;
    while k < firsts.len()
        invariant
            0 <= k <= firsts@.len(),
            firsts@.len() == first_starts(s@).len(),
            forall|t: int|
                0 <= t < firsts@.len() ==> #[trigger] firsts@[t] as int == first_starts(s@)[t],
            r@.len() == k,
            forall|t: int| 0 <= t < k ==> #[trigger] r@[t].0 as int == first_starts(s@)[t],
            forall|t: int|
                0 <= t < k ==> #[trigger] r@[t].1 as int == (if t + 1 < firsts@.len() {
                    first_starts(s@)[t + 1]
                } else {
                    s@.len() as int
                }),
        decreases firsts.len() - k,
    {
        let a = firsts[k];
        let b = if k + 1 < firsts.len() {
            firsts[k + 1]
        } else {
            s.len()
        };
        r.push((a, b));
        k = k + 1;
    }
    r
}

/// The close dates of a list of matches, in order.
pub open spec fn close_dates(rs: Seq<Realized>) -> Seq<Date> {
    Seq::new(rs.len(), |i: int| rs[i].close_date)
}

/// The magnitude sums over any window of a list never exceed those over the
/// whole list.
pub proof fn lemma_sums_range_bound(rs: Seq<Realized>, a: int, b: int)
    requires
        0 <= a <= b <= rs.len(),
    ensures
        sum_abs_quantity(rs.subrange(a, b)) <= sum_abs_quantity(rs),
        sum_abs_close_basis(rs.subrange(a, b)) <= sum_abs_close_basis(rs),
        sum_abs_open_basis(rs.subrange(a, b)) <= sum_abs_open_basis(rs),
        sum_abs_gain(rs.subrange(a, b)) <= sum_abs_gain(rs),
{
    lemma_sums_split(rs, a);
    lemma_sums_abs(rs.subrange(0, a));
    let tail = rs.subrange(a, rs.len() as int);
    lemma_sums_split(tail, b - a);
    lemma_sums_abs(tail.subrange(b - a, tail.len() as int));
    assert(tail.subrange(0, b - a) =~= rs.subrange(a, b));
}

/// Sums one window `[a, b)` of a list of matches into a summary row.
fn compact_range(rs: &[Realized], a: usize, b: usize) -> (c: RealizedCompact)
    requires
        a < b <= rs@.len(),
        sum_abs_quantity(rs@) <= i64::MAX as int,
        sum_abs_close_basis(rs@) + sum_abs_open_basis(rs@) <= i64::MAX as int,
    ensures
        compact_matches(c, rs@.subrange(a as int, b as int)),
{
    let ghost g = rs@.subrange(a as int, b as int);
    let mut q: i64 = 0;
    let mut cb: i64 = 0;
    let mut ob: i64 = 0;
    let mut j: usize = a;
    proof {
        lemma_sums_range_bound(rs@, a as int, b as int);
        lemma_sums_abs(rs@);
    }
    while j < b
        invariant
            a <= j <= b <= rs@.len(),
            g == rs@.subrange(a as int, b as int),
            q as int == sum_quantity(g.subrange(0, j - a)),
            cb as int == sum_close_basis(g.subrange(0, j - a)),
            ob as int == sum_open_basis(g.subrange(0, j - a)),
            sum_abs_quantity(g) <= i64::MAX as int,
            sum_abs_close_basis(g) + sum_abs_open_basis(g) <= i64::MAX as int,
        decreases b - j,
    {
        proof {
            let w = j - a;
            assert(g.subrange(0, w + 1).drop_last() =~= g.subrange(0, w as int));
            assert(g.subrange(0, w + 1).last() == g[w as int]);
            assert(g[w as int] == rs@[j as int]);
            lemma_sums_abs(g.subrange(0, w + 1));
            lemma_sums_prefix_bound(g, w + 1);
        }
        q = q + rs[j].quantity;
        cb = cb + rs[j].close_basis;
        ob = ob + rs[j].open_basis;
        j = j + 1;
    }
    proof {
        assert(g.subrange(0, (b - a) as int) =~= g);
        lemma_sums_abs(g);
    }
    let q_abs: i64 = if q < 0 {
        -q
    } else {
        q
    };
    RealizedCompact::new(rs[a].close_date, q_abs, cb, String::new(), ob)
}

/// Groups a list of realized matches by close date into summary rows: one
/// row per run of matches from a close date's first appearance to the next
/// date's first appearance.  The rows partition the list exactly when equal
/// close dates stand contiguously (the expected input shape); repeats of a
/// date that are not contiguous are not re-merged.
pub fn realized_to_compact(realized: &[Realized]) -> (r: Vec<RealizedCompact>)
    requires
        sum_abs_quantity(realized@) <= i64::MAX as int,
        sum_abs_close_basis(realized@) + sum_abs_open_basis(realized@) <= i64::MAX as int,
    ensures
        r@.len() == first_starts(close_dates(realized@)).len(),
        forall|k: int|
            0 <= k < r@.len() ==> compact_matches(
                #[trigger] r@[k],
                realized@.subrange(
                    first_starts(close_dates(realized@))[k],
                    if k + 1 < r@.len() {
                        first_starts(close_dates(realized@))[k + 1]
                    } else {
                        realized@.len() as int
                    },
                ),
            ),
{
    let ghost ds = close_dates(realized@);
    let mut dates: Vec<Date> = Vec::new();
    let mut i: usize = 0;
    while i < realized.len()
        invariant
            0 <= i <= realized.len(),
            dates@.len() == i,
            forall|t: int| 0 <= t < i ==> #[trigger] dates@[t] == realized@[t].close_date,
        decreases realized.len() - i,
    {
        dates.push(realized[i].close_date);
        i = i + 1;
    }
    proof {
        assert(dates@ =~= ds);
        lemma_first_starts(ds);
    }
    let groups = group_by_index(dates.as_slice());
    let mut r: Vec<RealizedCompact> = Vec::new();
    let mut k: usize = 0;
    while k < groups.len()
        invariant
            0 <= k <= groups@.len(),
            groups@.len() == first_starts(ds).len(),
            ds == close_dates(realized@),
            ds.len() == realized@.len(),
            sum_abs_quantity(realized@) <= i64::MAX as int,
            sum_abs_close_basis(realized@) + sum_abs_open_basis(realized@) <= i64::MAX as int,
            forall|t: int|
                0 <= t < groups@.len() ==> #[trigger] groups@[t].0 as int == first_starts(ds)[t],
            forall|t: int|
                0 <= t < groups@.len() ==> #[trigger] groups@[t].1 as int == (if t + 1
                    < groups@.len() {
                    first_starts(ds)[t + 1]
                } else {
                    ds.len() as int
                }),
            forall|t: int|
                0 <= t < first_starts(ds).len() ==> 0 <= #[trigger] first_starts(ds)[t] < ds.len(),
            forall|t: int|
                0 < t < first_starts(ds).len() ==> first_starts(ds)[t - 1] < #[trigger] first_starts(
                    ds,
                )[t],
            r@.len() == k,
            forall|t: int|
                0 <= t < k ==> compact_matches(
                    #[trigger] r@[t],
                    realized@.subrange(
                        first_starts(ds)[t],
                        if t + 1 < groups@.len() {
                            first_starts(ds)[t + 1]
                        } else {
                            realized@.len() as int
                        },
                    ),
                ),
        decreases groups.len() - k,
    {
        let (a, b) = (groups[k].0, groups[k].1);
        let c = compact_range(realized, a, b);
        r.push(c);
        k = k + 1;
    }
    r
}

} // verus!


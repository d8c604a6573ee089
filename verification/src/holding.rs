use vstd::prelude::*;

use crate::inventory::{
    abs_i, dir_of, lemma_prorate_bounds, prorate, split_part, split_rest, ChangeData, Inventory,
    InventoryType, VolumeSplit,
};
use crate::realized::{realize_of, zero_profit_of, zero_value_of, Realized};
use crate::unrealized::URealized;
use crate::InventoryError;

verus! {

/// How matching a `Remove`-kind change (a non-trading withdrawal) is valued.
/// Trading sales are never touched by this policy.
#[derive(Clone, Copy, Debug, PartialEq, Eq, Structural)]
pub enum RemovalPolicy {
    /// The default: the removal is cost-basis neutral and invisible; the
    /// matches it produced are discarded.
    Neutral,
    /// Keep the matches but revalue each close side at the open side's
    /// cost, so every gain is zero: a transfer of basis out of the holding.
    AtCost,
    /// Keep the matches unchanged: the caller supplied a market-price
    /// derived basis on the removal change itself.
    AtMarket,
    /// Keep the matches but force each close side to zero value, realizing
    /// the full open basis as the gain (a total loss of that cost basis).
    AtZero,
}

/// The sum of the signed quantities of a sequence of open lots.
pub open spec fn sum_lot_quantity(lots: Seq<URealized>) -> int
    decreases lots.len(),
{
    if lots.len() == 0 {
        0
    } else {
        sum_lot_quantity(lots.drop_last()) + lots.last().quantity
    }
}

/// The sum of the magnitudes of the quantities of a sequence of open lots.
pub open spec fn sum_abs_lot_quantity(lots: Seq<URealized>) -> int
    decreases lots.len(),
{
    if lots.len() == 0 {
        0
    } else {
        sum_abs_lot_quantity(lots.drop_last()) + abs_i(lots.last().quantity as int)
    }
}

/// The sum of the signed basis amounts of a sequence of open lots.
pub open spec fn sum_lot_basis(lots: Seq<URealized>) -> int
    decreases lots.len(),
{
    if lots.len() == 0 {
        0
    } else {
        sum_lot_basis(lots.drop_last()) + lots.last().basis
    }
}

/// The sum of the magnitudes of the basis amounts of a sequence of open lots.
pub open spec fn sum_abs_lot_basis(lots: Seq<URealized>) -> int
    decreases lots.len(),
{
    if lots.len() == 0 {
        0
    } else {
        sum_abs_lot_basis(lots.drop_last()) + abs_i(lots.last().basis as int)
    }
}

/// The signed sums are bounded in magnitude by the magnitude sums, which are
/// non-negative.
pub proof fn lemma_lot_sums_abs(lots: Seq<URealized>)
    ensures
        abs_i(sum_lot_quantity(lots)) <= sum_abs_lot_quantity(lots),
        abs_i(sum_lot_basis(lots)) <= sum_abs_lot_basis(lots),
        sum_abs_lot_quantity(lots) >= 0,
        sum_abs_lot_basis(lots) >= 0,
    decreases lots.len(),
{
    if lots.len() > 0 {
        lemma_lot_sums_abs(lots.drop_last());
    }
}

/// Every lot sum splits at any index into the sums of the two pieces.
pub proof fn lemma_lot_sums_split(lots: Seq<URealized>, k: int)
    requires
        0 <= k <= lots.len(),
    ensures
        sum_lot_quantity(lots) == sum_lot_quantity(lots.subrange(0, k)) + sum_lot_quantity(
            lots.subrange(k, lots.len() as int),
        ),
        sum_abs_lot_quantity(lots) == sum_abs_lot_quantity(lots.subrange(0, k))
            + sum_abs_lot_quantity(lots.subrange(k, lots.len() as int)),
        sum_lot_basis(lots) == sum_lot_basis(lots.subrange(0, k)) + sum_lot_basis(
            lots.subrange(k, lots.len() as int),
        ),
        sum_abs_lot_basis(lots) == sum_abs_lot_basis(lots.subrange(0, k)) + sum_abs_lot_basis(
            lots.subrange(k, lots.len() as int),
        ),
    decreases lots.len() - k,
{
    if k == lots.len() {
        assert(lots.subrange(0, k) =~= lots);
        assert(lots.subrange(k, lots.len() as int) =~= Seq::<URealized>::empty());
    } else {
        lemma_lot_sums_split(lots.drop_last(), k);
        assert(lots.drop_last().subrange(0, k) =~= lots.subrange(0, k));
        assert(lots.subrange(k, lots.len() as int).drop_last() =~= lots.drop_last().subrange(
            k,
            lots.len() - 1,
        ));
        assert(lots.subrange(k, lots.len() as int).last() == lots.last());
    }
}

/// The lot sums of a non-empty sequence are the front lot's contribution
/// plus the sums over the rest.
pub proof fn lemma_lot_sums_first(lots: Seq<URealized>)
    requires
        lots.len() > 0,
    ensures
        sum_lot_quantity(lots) == lots[0].quantity + sum_lot_quantity(lots.drop_first()),
        sum_abs_lot_quantity(lots) == abs_i(lots[0].quantity as int) + sum_abs_lot_quantity(
            lots.drop_first(),
        ),
        sum_lot_basis(lots) == lots[0].basis + sum_lot_basis(lots.drop_first()),
        sum_abs_lot_basis(lots) == abs_i(lots[0].basis as int) + sum_abs_lot_basis(
            lots.drop_first(),
        ),
    decreases lots.len(),
{
    if lots.len() == 1 {
        assert(lots.drop_last() =~= Seq::<URealized>::empty());
        assert(lots.drop_first() =~= Seq::<URealized>::empty());
        assert(lots.last() == lots[0]);
        assert(sum_lot_quantity(lots.drop_last()) == 0);
        assert(sum_abs_lot_quantity(lots.drop_last()) == 0);
        assert(sum_lot_basis(lots.drop_last()) == 0);
        assert(sum_abs_lot_basis(lots.drop_last()) == 0);
    } else {
        lemma_lot_sums_first(lots.drop_last());
        assert(lots.drop_last()[0] == lots[0]);
        assert(lots.drop_first().drop_last() =~= lots.drop_last().drop_first());
        assert(lots.drop_first().last() == lots.last());
        assert(lots.drop_first().len() > 0);
    }
}

/// Appending one lot extends every lot sum by that lot's contribution.
pub proof fn lemma_lot_sums_push(lots: Seq<URealized>, x: URealized)
    ensures
        sum_lot_quantity(lots.push(x)) == sum_lot_quantity(lots) + x.quantity,
        sum_abs_lot_quantity(lots.push(x)) == sum_abs_lot_quantity(lots) + abs_i(x.quantity as int),
        sum_lot_basis(lots.push(x)) == sum_lot_basis(lots) + x.basis,
        sum_abs_lot_basis(lots.push(x)) == sum_abs_lot_basis(lots) + abs_i(x.basis as int),
{
    assert(lots.push(x).drop_last() =~= lots);
}

/// Whether every lot in the sequence drives the position in direction `d`.
pub open spec fn lots_all_dir(lots: Seq<URealized>, d: InventoryType) -> bool {
    match d {
        InventoryType::Long => forall|i: int| 0 <= i < lots.len() ==> lots[i].quantity > 0,
        InventoryType::Short => forall|i: int| 0 <= i < lots.len() ==> lots[i].quantity < 0,
        _ => false,
    }
}

/// Whether a lot sequence and a direction form a consistent holding state:
/// no direction means no lots, and a direction means at least one lot with
/// every lot's quantity on that direction's side.
pub open spec fn lots_consistent(lots: Seq<URealized>, direction: Option<InventoryType>) -> bool {
    match direction {
        None => lots.len() == 0,
        Some(d) => lots.len() > 0 && lots_all_dir(lots, d),
    }
}

/// The quantities of a non-empty one-sided lot sequence sum strictly to
/// that side.
pub proof fn lemma_lot_sum_sign(lots: Seq<URealized>, d: InventoryType)
    requires
        lots.len() > 0,
        lots_all_dir(lots, d),
    ensures
        d == InventoryType::Long ==> sum_lot_quantity(lots) > 0,
        d == InventoryType::Short ==> sum_lot_quantity(lots) < 0,
    decreases lots.len(),
{
    match d {
        InventoryType::Long => {
            if lots.len() > 1 {
                assert forall|i: int|
                    0 <= i < lots.drop_last().len() implies #[trigger] lots.drop_last()[i].quantity
                    > 0 by {
                    assert(lots.drop_last()[i] == lots[i]);
                }
                lemma_lot_sum_sign(lots.drop_last(), d);
            } else {
                assert(lots.drop_last() =~= Seq::<URealized>::empty());
                assert(sum_lot_quantity(lots.drop_last()) == 0);
            }
            assert(lots.last() == lots[lots.len() - 1]);
        },
        InventoryType::Short => {
            if lots.len() > 1 {
                assert forall|i: int|
                    0 <= i < lots.drop_last().len() implies #[trigger] lots.drop_last()[i].quantity
                    < 0 by {
                    assert(lots.drop_last()[i] == lots[i]);
                }
                lemma_lot_sum_sign(lots.drop_last(), d);
            } else {
                assert(lots.drop_last() =~= Seq::<URealized>::empty());
                assert(sum_lot_quantity(lots.drop_last()) == 0);
            }
            assert(lots.last() == lots[lots.len() - 1]);
        },
        _ => {
            assert(false);
        },
    }
}

/// Splitting an open lot strictly inside its quantity yields two lots of
/// the same date and side whose quantities and basis amounts sum exactly to
/// the original's, in magnitude as well as signed.
pub proof fn lemma_lot_split(l: URealized, at: int)
    requires
        l.quantity != 0,
        0 < at < abs_i(l.quantity as int),
    ensures
        lot_split_part(l, at).date == l.date,
        lot_split_rest(l, at).date == l.date,
        lot_split_part(l, at).quantity as int == (if l.quantity < 0 {
            -at
        } else {
            at
        }),
        lot_split_part(l, at).quantity as int + lot_split_rest(l, at).quantity as int
            == l.quantity as int,
        lot_split_part(l, at).basis as int + lot_split_rest(l, at).basis as int == l.basis as int,
        lot_split_part(l, at).basis as int == prorate(
            l.basis as int,
            at,
            abs_i(l.quantity as int),
        ),
        l.quantity > 0 ==> lot_split_part(l, at).quantity > 0 && lot_split_rest(l, at).quantity
            > 0,
        l.quantity < 0 ==> lot_split_part(l, at).quantity < 0 && lot_split_rest(l, at).quantity
            < 0,
        abs_i(lot_split_part(l, at).quantity as int) + abs_i(lot_split_rest(l, at).quantity as int)
            == abs_i(l.quantity as int),
        abs_i(lot_split_part(l, at).basis as int) + abs_i(lot_split_rest(l, at).basis as int)
            == abs_i(l.basis as int),
{
    lemma_prorate_bounds(l.basis as int, at, abs_i(l.quantity as int));
}

/// An opposing change faces a holding with a direction and at least one
/// lot, every lot standing on the side the change runs against.
pub proof fn lemma_opposing(
    lots: Seq<URealized>,
    direction: Option<InventoryType>,
    cq: int,
)
    requires
        lots_consistent(lots, direction),
        !matches_direction(direction, cq),
        cq != 0,
    ensures
        lots.len() > 0,
        direction is Some,
        cq > 0 ==> direction == Some(InventoryType::Short) && lots_all_dir(
            lots,
            InventoryType::Short,
        ),
        cq < 0 ==> direction == Some(InventoryType::Long) && lots_all_dir(
            lots,
            InventoryType::Long,
        ),
{
}

/// The view of a holding: its open lots oldest first, its direction, and
/// its removal-valuation policy.
pub ghost struct HoldingView {
    pub lots: Seq<URealized>,
    pub direction: Option<InventoryType>,
    pub policy: RemovalPolicy,
}

impl HoldingView {
    /// A well-formed holding state: lots and direction are consistent and
    /// the magnitude sums of the lots stay within machine range.
    pub open spec fn wf(self) -> bool {
        &&& lots_consistent(self.lots, self.direction)
        &&& sum_abs_lot_quantity(self.lots) <= i64::MAX as int
        &&& sum_abs_lot_basis(self.lots) <= i64::MAX as int
    }
}

/// The open lot an inventory change turns into when it is added to the
/// holding rather than matched.
pub open spec fn lot_of(c: ChangeData) -> URealized {
    URealized { date: c.date, quantity: c.quantity as i64, basis: c.basis as i64 }
}

/// Whether a change of quantity `q` runs in the same direction as the
/// holding: it does whenever the holding is direction-less or the change's
/// own direction equals the holding's.
pub open spec fn matches_direction(direction: Option<InventoryType>, q: int) -> bool {
    direction is None || direction == Some(dir_of(q))
}

/// The zero-reset rule: a holding whose lots are gone, or whose quantities
/// net out to zero, falls back to the empty direction-less state.
pub open spec fn zero_reset(lots: Seq<URealized>, direction: Option<InventoryType>) -> (Seq<
    URealized,
>, Option<InventoryType>) {
    if lots.len() == 0 || sum_lot_quantity(lots) == 0 {
        (Seq::<URealized>::empty(), None::<InventoryType>)
    } else {
        (lots, direction)
    }
}

/// The slice a split peels off an open lot, as an open lot.
pub open spec fn lot_split_part(l: URealized, at: int) -> URealized {
    lot_of(split_part(l.chg(), at))
}

/// The remainder a split leaves of an open lot, as an open lot.
pub open spec fn lot_split_rest(l: URealized, at: int) -> URealized {
    lot_of(split_rest(l.chg(), at))
}

/// What applying one inventory change does to a holding, before any
/// removal-valuation policy: the realized matches it produces, in order,
/// and the lots and direction it leaves behind.
///
/// A change in the holding's direction becomes one appended lot.  An
/// opposing change is matched against the front (oldest) lot: if the sizes
/// agree the front lot is consumed whole; if the front lot is larger it is
/// split and only its front part consumed; if the change is larger, the
/// change is split, its front part consumes the front lot, and the rest is
/// carried into the same procedure again.  After every consumption the
/// zero-reset rule runs.
pub open spec fn apply_change(
    lots: Seq<URealized>,
    direction: Option<InventoryType>,
    c: ChangeData,
) -> (Seq<Realized>, Seq<URealized>, Option<InventoryType>)
    decreases lots.len(),
{
    if matches_direction(direction, c.quantity) {
        (
            Seq::<Realized>::empty(),
            lots.push(lot_of(c)),
            if direction is None {
                Some(dir_of(c.quantity))
            } else {
                direction
            },
        )
    } else if lots.len() == 0 {
        // Unreachable from a well-formed holding: a direction implies a lot.
        (Seq::<Realized>::empty(), lots, direction)
    } else {
        let front = lots[0];
        let fq = front.quantity as int;
        if c.quantity + fq == 0 {
            let (l2, d2) = zero_reset(lots.drop_first(), direction);
            (seq![realize_of(c, front)], l2, d2)
        } else if abs_i(fq) > abs_i(c.quantity) {
            let closed = lot_split_part(front, abs_i(c.quantity));
            let keep = lot_split_rest(front, abs_i(c.quantity));
            let (l2, d2) = zero_reset(seq![keep] + lots.drop_first(), direction);
            (seq![realize_of(c, closed)], l2, d2)
        } else {
            let m = split_part(c, abs_i(fq));
            let rest = split_rest(c, abs_i(fq));
            let (l2, d2) = zero_reset(lots.drop_first(), direction);
            let (ms, l3, d3) = apply_change(l2, d2, rest);
            (seq![realize_of(m, front)] + ms, l3, d3)
        }
    }
}

/// What a removal-valuation policy does to the matches a `Remove`-kind
/// change produced.
pub open spec fn apply_policy(p: RemovalPolicy, ms: Seq<Realized>) -> Seq<Realized> {
    match p {
        RemovalPolicy::Neutral => Seq::<Realized>::empty(),
        RemovalPolicy::AtCost => ms.map_values(|r: Realized| zero_profit_of(r)),
        RemovalPolicy::AtMarket => ms,
        RemovalPolicy::AtZero => ms.map_values(|r: Realized| zero_value_of(r)),
    }
}

/// The matches one change hands back to the caller: the raw matches of
/// [`apply_change`], run through the holding's policy when the change is a
/// `Remove`-kind one.
pub open spec fn step_result(
    lots: Seq<URealized>,
    direction: Option<InventoryType>,
    c: ChangeData,
    p: RemovalPolicy,
) -> Seq<Realized> {
    let raw = apply_change(lots, direction, c).0;
    if c.itype == InventoryType::Remove {
        apply_policy(p, raw)
    } else {
        raw
    }
}

/// The average price of a holding with total basis `b` and total quantity
/// `q`, in ten-thousandths of a unit: zero for a flat holding, otherwise
/// `-b / q` rounded half away from zero at the fourth decimal.
pub open spec fn avg_price_e4(b: int, q: int) -> int {
    if q == 0 {
        0
    } else {
        let mag = (abs_i(b) * 10000 + abs_i(q) / 2) / abs_i(q);
        if b != 0 && ((b > 0) <==> (q > 0)) {
            -mag
        } else {
            mag
        }
    }
}

/// The mathematical content of a sequence of inventory-change records.
pub open spec fn changes_of<T: Inventory>(invs: Seq<T>) -> Seq<ChangeData> {
    Seq::new(invs.len(), |i: int| invs[i].chg())
}

/// The sum of the quantity magnitudes of a sequence of changes.
pub open spec fn sum_abs_chg_quantity(cs: Seq<ChangeData>) -> int
    decreases cs.len(),
{
    if cs.len() == 0 {
        0
    } else {
        sum_abs_chg_quantity(cs.drop_last()) + abs_i(cs.last().quantity)
    }
}

/// The sum of the basis magnitudes of a sequence of changes.
pub open spec fn sum_abs_chg_basis(cs: Seq<ChangeData>) -> int
    decreases cs.len(),
{
    if cs.len() == 0 {
        0
    } else {
        sum_abs_chg_basis(cs.drop_last()) + abs_i(cs.last().basis)
    }
}

/// The change-sequence magnitude sums are non-negative, and those of a
/// non-empty sequence are the front change's contribution plus the sums
/// over the rest.
pub proof fn lemma_chg_sums_first(cs: Seq<ChangeData>)
    ensures
        sum_abs_chg_quantity(cs) >= 0,
        sum_abs_chg_basis(cs) >= 0,
        cs.len() > 0 ==> sum_abs_chg_quantity(cs) == abs_i(cs[0].quantity) + sum_abs_chg_quantity(
            cs.drop_first(),
        ),
        cs.len() > 0 ==> sum_abs_chg_basis(cs) == abs_i(cs[0].basis) + sum_abs_chg_basis(
            cs.drop_first(),
        ),
    decreases cs.len(),
{
    if cs.len() == 1 {
        assert(cs.drop_last() =~= Seq::<ChangeData>::empty());
        assert(cs.drop_first() =~= Seq::<ChangeData>::empty());
        assert(cs.last() == cs[0]);
        assert(sum_abs_chg_quantity(cs.drop_last()) == 0);
        assert(sum_abs_chg_basis(cs.drop_last()) == 0);
    } else if cs.len() > 1 {
        lemma_chg_sums_first(cs.drop_last());
        assert(cs.drop_last()[0] == cs[0]);
        assert(cs.drop_first().drop_last() =~= cs.drop_last().drop_first());
        assert(cs.drop_first().last() == cs.last());
        assert(cs.drop_first().len() > 0);
    }
}

/// What applying an ordered batch of changes does to a holding: each change
/// is applied in turn as by [`apply_change`] with the policy run on every
/// `Remove`-kind change's matches, and the returned match lists are
/// concatenated in order.
pub open spec fn apply_changes(
    lots: Seq<URealized>,
    direction: Option<InventoryType>,
    cs: Seq<ChangeData>,
    p: RemovalPolicy,
) -> (Seq<Realized>, Seq<URealized>, Option<InventoryType>)
    decreases cs.len(),
{
    if cs.len() == 0 {
        (Seq::<Realized>::empty(), lots, direction)
    } else {
        let g = apply_change(lots, direction, cs[0]);
        let ms = if cs[0].itype == InventoryType::Remove {
            apply_policy(p, g.0)
        } else {
            g.0
        };
        let rest = apply_changes(g.1, g.2, cs.drop_first(), p);
        (ms + rest.0, rest.1, rest.2)
    }
}

/// A holding: the still-open inventory lots of one position in
/// first-in-first-out order, the direction of the position, and the
/// configured removal-valuation policy.
///
/// An inventory change added in the holding's own direction (or to an empty
/// holding) is appended as a new open lot.  An opposing change is matched
/// against the oldest lots first, splitting a lot or the change itself when
/// sizes do not align, and every open/close pairing is returned as a
/// [`Realized`] value.
///
/// Adding inventory (a deposit or transfer in) must carry a basis and is
/// treated like a purchase.  Removing inventory (a withdrawal or transfer
/// out) is valued by the configured [`RemovalPolicy`].
pub struct Holding {
    unrealized: Vec<URealized>,
    direction: Option<InventoryType>,
    config: RemovalPolicy,
}

impl View for Holding {
    type V = HoldingView;

    closed spec fn view(&self) -> HoldingView {
        HoldingView { lots: self.unrealized@, direction: self.direction, policy: self.config }
    }
}

impl Default for Holding {
    /// An empty, direction-less holding with the neutral removal policy.
    fn default() -> (r: Holding)
        ensures
            r@.lots == Seq::<URealized>::empty(),
            r@.direction is None,
            r@.policy == RemovalPolicy::Neutral,
            r@.wf(),
    {
        Holding {
            unrealized: Vec::new(),
            direction: None,
            config: RemovalPolicy::Neutral,
        }
    }
}

impl Holding {
    /// The holding's current direction: long, short, or none when flat.
    pub fn direction(&self) -> (r: Option<InventoryType>)
        ensures
            r == self@.direction,
    {
        self.direction
    }

    /// A copy of the current open lots, oldest first.
    pub fn inventory(&self) -> (r: Vec<URealized>)
        ensures
            r@ == self@.lots,
    {
        let mut out: Vec<URealized> = Vec::new();
        let mut i: usize = 0;
        while i < self.unrealized.len()
            invariant
                0 <= i <= self.unrealized@.len(),
                out@ =~= self.unrealized@.subrange(0, i as int),
            decreases self.unrealized@.len() - i,
        {
            out.push(self.unrealized[i]);
            i = i + 1;
        }
        proof {
            assert(self.unrealized@.subrange(0, self.unrealized@.len() as int)
                =~= self.unrealized@);
        }
        out
    }

    /// Configures how `Remove`-kind changes are valued from now on.
    pub fn add_config(&mut self, c: RemovalPolicy)
        ensures
            final(self)@.policy == c,
            final(self)@.lots == old(self)@.lots,
            final(self)@.direction == old(self)@.direction,
    {
        self.config = c;
    }

    /// Builds a holding seeded from existing open lots, oldest first.  The
    /// seed must be one-sided: every quantity strictly positive or every
    /// quantity strictly negative.  The direction is derived from the seed;
    /// an empty seed gives an empty, direction-less holding.
    pub fn from_lots(g: &[URealized]) -> (r: Holding)
        requires
            (forall|i: int| 0 <= i < g@.len() ==> g@[i].quantity > 0) || (forall|i: int|
                0 <= i < g@.len() ==> g@[i].quantity < 0),
            sum_abs_lot_quantity(g@) <= i64::MAX as int,
            sum_abs_lot_basis(g@) <= i64::MAX as int,
        ensures
            r@.lots == g@,
            r@.direction == (if g@.len() == 0 {
                None::<InventoryType>
            } else {
                Some(dir_of(g@[0].quantity as int))
            }),
            r@.policy == RemovalPolicy::Neutral,
            r@.wf(),
    {
        let mut lots: Vec<URealized> = Vec::new();
        let mut i: usize = 0;
        while i < g.len()
            invariant
                0 <= i <= g@.len(),
                lots@ =~= g@.subrange(0, i as int),
            decreases g@.len() - i,
        {
            lots.push(g[i]);
            i = i + 1;
        }
        proof {
            assert(g@.subrange(0, g@.len() as int) =~= g@);
        }
        let direction: Option<InventoryType> = if lots.len() == 0 {
            None
        } else if lots[0].quantity > 0 {
            Some(InventoryType::Long)
        } else {
            Some(InventoryType::Short)
        };
        Holding { unrealized: lots, direction, config: RemovalPolicy::Neutral }
    }

    /// The current position: the summed quantity, the average price in
    /// ten-thousandths of a unit, and the summed basis of the open lots.
    pub fn position(&self) -> (r: (i64, i128, i64))
        requires
            self@.wf(),
        ensures
            r.0 as int == sum_lot_quantity(self@.lots),
            r.1 as int == avg_price_e4(sum_lot_basis(self@.lots), sum_lot_quantity(self@.lots)),
            r.2 as int == sum_lot_basis(self@.lots),
    {
        let ghost lots = self.unrealized@;
        let mut q: i64 = 0;
        let mut b: i64 = 0;
        let mut i: usize = 0;
        proof {
            lemma_lot_sums_abs(lots);
        }
        while i < self.unrealized.len()
            invariant
                0 <= i <= lots.len(),
                lots == self.unrealized@,
                q as int == sum_lot_quantity(lots.subrange(0, i as int)),
                b as int == sum_lot_basis(lots.subrange(0, i as int)),
                sum_abs_lot_quantity(lots) <= i64::MAX as int,
                sum_abs_lot_basis(lots) <= i64::MAX as int,
            decreases lots.len() - i,
        {
            proof {
                assert(lots.subrange(0, i + 1).drop_last() =~= lots.subrange(0, i as int));
                assert(lots.subrange(0, i + 1).last() == lots[i as int]);
                lemma_lot_sums_abs(lots.subrange(0, i + 1));
                lemma_lot_sums_split(lots, i + 1);
                lemma_lot_sums_abs(lots.subrange(i + 1, lots.len() as int));
            }
            q = q + self.unrealized[i].quantity;
            b = b + self.unrealized[i].basis;
            i = i + 1;
        }
        proof {
            assert(lots.subrange(0, lots.len() as int) =~= lots);
        }
        let price: i128 = if q == 0 {
            0
        } else {
            let b_wide: i128 = b as i128;
            let b_abs: u128 = (if b_wide < 0 {
                -b_wide
            } else {
                b_wide
            }) as u128;
            let q_wide: i128 = q as i128;
            let q_abs: u128 = (if q_wide < 0 {
                -q_wide
            } else {
                q_wide
            }) as u128;
            let mag: u128 = (b_abs * 10000 + q_abs / 2) / q_abs;
            proof {
                assert(mag as int <= b_abs as int * 10000 + q_abs as int / 2) by (nonlinear_arith)
                    requires
                        q_abs as int >= 1,
                        mag as int == (b_abs as int * 10000 + q_abs as int / 2) / (q_abs as int),
                ;
            }
            proof {
                if b == 0 {
                    assert((b_abs as int * 10000 + q_abs as int / 2) / (q_abs as int) == 0)
                        by (nonlinear_arith)
                        requires
                            b_abs as int == 0,
                            q_abs as int >= 1,
                    ;
                }
            }
            let mag_i: i128 = mag as i128;
            if (b > 0) == (q > 0) {
                -mag_i
            } else {
                mag_i
            }
        };
        (q, price, b)
    }

    /// Whether `inv` runs in the holding's direction (or the holding has
    /// none yet), so that it would be added rather than matched.
    fn match_direction<T: Inventory>(&self, inv: &T) -> (r: bool)
        requires
            inv.inv_wf(),
        ensures
            r == matches_direction(self@.direction, inv.chg().quantity),
    {
        match self.direction {
            None => true,
            Some(d) => {
                let dt = inv.direction_type();
                d == dt
            },
        }
    }

    /// Appends one open lot at the tail of the inventory, setting the
    /// holding's direction from the lot if it had none.  The lot must run
    /// in the holding's direction.
    pub fn add_inventory(&mut self, ur: URealized)
        requires
            old(self)@.wf(),
            ur.quantity != 0,
            matches_direction(old(self)@.direction, ur.quantity as int),
            sum_abs_lot_quantity(old(self)@.lots) + abs_i(ur.quantity as int) <= i64::MAX as int,
            sum_abs_lot_basis(old(self)@.lots) + abs_i(ur.basis as int) <= i64::MAX as int,
        ensures
            final(self)@.lots == old(self)@.lots.push(ur),
            final(self)@.direction == (if old(self)@.direction is None {
                Some(dir_of(ur.quantity as int))
            } else {
                old(self)@.direction
            }),
            final(self)@.policy == old(self)@.policy,
            final(self)@.wf(),
    {
        let ghost lots0 = self@.lots;
        let ghost dir0 = self@.direction;
        match self.direction {
            None => {
                self.direction = Some(ur.direction_type());
            },
            Some(_) => {},
        }
        self.unrealized.push(ur);
        proof {
            lemma_lot_sums_push(lots0, ur);
            let d = self@.direction.unwrap();
            assert forall|i: int| 0 <= i < self@.lots.len() implies (d == InventoryType::Long
                ==> #[trigger] self@.lots[i].quantity > 0) && (d == InventoryType::Short
                ==> self@.lots[i].quantity < 0) by {
                if i < lots0.len() {
                    assert(self@.lots[i] == lots0[i]);
                } else {
                    assert(self@.lots[i] == ur);
                }
            }
        }
    }

    /// Clears the holding back to the empty, direction-less state when its
    /// lots are gone or their quantities net out to zero.
    fn check_zero_reset(&mut self)
        requires
            match old(self)@.direction {
                None => old(self)@.lots.len() == 0,
                Some(d) => lots_all_dir(old(self)@.lots, d),
            },
            sum_abs_lot_quantity(old(self)@.lots) <= i64::MAX as int,
            sum_abs_lot_basis(old(self)@.lots) <= i64::MAX as int,
        ensures
            (final(self)@.lots, final(self)@.direction) == zero_reset(
                old(self)@.lots,
                old(self)@.direction,
            ),
            final(self)@.policy == old(self)@.policy,
            final(self)@.wf(),
    {
        if self.unrealized.is_empty() {
            self.direction = None;
        } else {
            proof {
                let d = self@.direction.unwrap();
                lemma_lot_sum_sign(self@.lots, d);
            }
        }
    }

    /// Removes the front (oldest) lot, pairs it with the size-matched
    /// closing change `inv`, applies the zero-reset rule, and returns the
    /// realized match.
    fn match_close<T: Inventory>(&mut self, inv: &T) -> (r: Realized)
        requires
            old(self)@.wf(),
            old(self)@.lots.len() > 0,
            inv.inv_wf(),
            inv.chg().quantity + old(self)@.lots[0].quantity as int == 0,
            abs_i(inv.chg().basis) + sum_abs_lot_basis(old(self)@.lots) <= i64::MAX as int,
        ensures
            r == realize_of(inv.chg(), old(self)@.lots[0]),
            (final(self)@.lots, final(self)@.direction) == zero_reset(
                old(self)@.lots.drop_first(),
                old(self)@.direction,
            ),
            final(self)@.policy == old(self)@.policy,
            final(self)@.wf(),
            sum_abs_lot_quantity(final(self)@.lots) <= sum_abs_lot_quantity(old(self)@.lots),
            sum_abs_lot_basis(final(self)@.lots) <= sum_abs_lot_basis(old(self)@.lots),
    {
        let ghost lots0 = self@.lots;
        proof {
            lemma_lot_sums_first(lots0);
            lemma_lot_sums_abs(lots0.drop_first());
            assert(lots0.remove(0) =~= lots0.drop_first());
            assert forall|i: int|
                0 <= i < lots0.drop_first().len() implies #[trigger] lots0.drop_first()[i]
                == lots0[i + 1] by {}
        }
        let unrealized = self.unrealized.remove(0);
        let r = Realized::match_close(inv, &unrealized);
        proof {
            match self@.direction {
                None => {
                    assert(false);
                },
                Some(d) => {
                    assert forall|i: int|
                        0 <= i < self@.lots.len() implies (d == InventoryType::Long
                        ==> #[trigger] self@.lots[i].quantity > 0) && (d == InventoryType::Short
                        ==> self@.lots[i].quantity < 0) by {
                        assert(self@.lots[i] == lots0[i + 1]);
                    }
                },
            }
        }
        self.check_zero_reset();
        r
    }

    /// Makes the front of the inventory and the opposing change `inv` the
    /// same size, so that a close can be realized: if the two already agree,
    /// both are left whole; if the front lot is larger it is split in place
    /// into a matched front part and a remainder behind it; if the change is
    /// larger it is split instead, and both of its parts are returned.  The
    /// returned records are the change parts still to be matched, in order.
    pub fn split_matching_first<T: VolumeSplit + Copy>(&mut self, inv: T) -> (r: Vec<T>)
        requires
            old(self)@.wf(),
            inv.inv_wf(),
            inv.chg().quantity != 0,
            !matches_direction(old(self)@.direction, inv.chg().quantity),
        ensures
            final(self)@.direction == old(self)@.direction,
            final(self)@.policy == old(self)@.policy,
            final(self)@.wf(),
            sum_abs_lot_quantity(final(self)@.lots) == sum_abs_lot_quantity(old(self)@.lots),
            sum_abs_lot_basis(final(self)@.lots) == sum_abs_lot_basis(old(self)@.lots),
            ({
                let front = old(self)@.lots[0];
                let fq = front.quantity as int;
                let cq = inv.chg().quantity;
                &&& (cq + fq == 0 ==> r@ == seq![inv] && final(self)@.lots == old(self)@.lots)
                &&& (cq + fq != 0 && abs_i(fq) > abs_i(cq) ==> r@ == seq![inv]
                    && final(self)@.lots == seq![
                    lot_split_part(front, abs_i(cq)),
                    lot_split_rest(front, abs_i(cq)),
                ] + old(self)@.lots.drop_first())
                &&& (cq + fq != 0 && abs_i(fq) < abs_i(cq) ==> {
                    &&& final(self)@.lots == old(self)@.lots
                    &&& r@.len() == 2
                    &&& r@[0].inv_wf() && r@[1].inv_wf()
                    &&& r@[0].chg() == split_part(inv.chg(), abs_i(fq))
                    &&& r@[1].chg() == split_rest(inv.chg(), abs_i(fq))
                })
                &&& (cq + fq != 0 ==> abs_i(fq) != abs_i(cq))
            }),
    {
        let ghost lots0 = self@.lots;
        let ghost cq = inv.chg().quantity;
        proof {
            lemma_opposing(lots0, self@.direction, cq);
            lemma_lot_sums_first(lots0);
            lemma_lot_sums_abs(lots0.drop_first());
            inv.lemma_chg_bounds();
        }
        let front_q: i64 = self.unrealized[0].quantity;
        let inv_q: i64 = inv.quantity();
        if inv_q + front_q == 0 {
            let mut r: Vec<T> = Vec::new();
            r.push(inv);
            proof {
                assert(r@ =~= seq![inv]);
            }
            r
        } else {
            let fa_wide: i128 = if front_q < 0 {
                -(front_q as i128)
            } else {
                front_q as i128
            };
            let ca_wide: i128 = if inv_q < 0 {
                -(inv_q as i128)
            } else {
                inv_q as i128
            };
            if fa_wide > ca_wide {
                // The front lot is larger: peel the matched part off it.
                let at: i64 = ca_wide as i64;
                let split_res = self.unrealized[0].split(at);
                let (close_ur, modified_inv) = match split_res {
                    Ok(p) => p,
                    Err(_) => {
                        proof {
                            assert(false);
                        }
                        vstd::pervasive::unreached()
                    },
                };
                proof {
                    lemma_lot_split(lots0[0], at as int);
                }
                self.unrealized.remove(0);
                self.unrealized.insert(0, modified_inv);
                self.unrealized.insert(0, close_ur);
                let mut r: Vec<T> = Vec::new();
                r.push(inv);
                proof {
                    assert(r@ =~= seq![inv]);
                    let front = lots0[0];
                    let part = lot_split_part(front, abs_i(cq));
                    let keep = lot_split_rest(front, abs_i(cq));
                    assert(close_ur.chg() == split_part(front.chg(), at as int));
                    assert(close_ur =~= part);
                    assert(modified_inv =~= keep);
                    assert(lots0.remove(0) =~= lots0.drop_first());
                    assert(self@.lots =~= seq![part, keep] + lots0.drop_first());
                    // The split keeps the magnitude sums unchanged.
                    let tail = lots0.drop_first();
                    lemma_lot_sums_first(seq![part, keep] + tail);
                    assert((seq![part, keep] + tail).drop_first() =~= seq![keep] + tail);
                    lemma_lot_sums_first(seq![keep] + tail);
                    assert((seq![keep] + tail).drop_first() =~= tail);
                    // Every lot in the new sequence stays on the holding's side.
                    let d = self@.direction.unwrap();
                    assert forall|i: int|
                        0 <= i < self@.lots.len() implies (d == InventoryType::Long
                        ==> #[trigger] self@.lots[i].quantity > 0) && (d == InventoryType::Short
                        ==> self@.lots[i].quantity < 0) by {
                        if i >= 2 {
                            assert(self@.lots[i] == lots0[i - 1]);
                        }
                    }
                }
                r
            } else {
                // The change is larger: split it at the front lot's size.
                proof {
                    assert(abs_i(cq) != abs_i(lots0[0].quantity as int));
                }
                let at: i64 = fa_wide as i64;
                let split_res = inv.split(at);
                let (match_trans, remaining_trans) = match split_res {
                    Ok(p) => p,
                    Err(_) => {
                        proof {
                            assert(false);
                        }
                        vstd::pervasive::unreached()
                    },
                };
                let mut r: Vec<T> = Vec::new();
                r.push(match_trans);
                r.push(remaining_trans);
                proof {
                    assert(r@ =~= seq![match_trans, remaining_trans]);
                }
                r
            }
        }
    }

    /// Runs the configured removal-valuation policy over the matches a
    /// `Remove`-kind change produced.
    fn mod_removed(&self, realized: Vec<Realized>) -> (r: Vec<Realized>)
        requires
            forall|i: int|
                0 <= i < realized@.len() ==> #[trigger] realized@[i].open_basis != i64::MIN,
        ensures
            r@ == apply_policy(self@.policy, realized@),
    {
        match self.config {
            RemovalPolicy::Neutral => Vec::new(),
            RemovalPolicy::AtMarket => realized,
            RemovalPolicy::AtCost => {
                let mut out: Vec<Realized> = Vec::new();
                let mut i: usize = 0;
                while i < realized.len()
                    invariant
                        0 <= i <= realized@.len(),
                        self@.policy == RemovalPolicy::AtCost,
                        out@ == apply_policy(
                            RemovalPolicy::AtCost,
                            realized@.subrange(0, i as int),
                        ),
                        forall|k: int|
                            0 <= k < realized@.len() ==> #[trigger] realized@[k].open_basis
                                != i64::MIN,
                    decreases realized@.len() - i,
                {
                    let mut x = realized[i];
                    x.zero_profit();
                    out.push(x);
                    proof {
                        assert(apply_policy(RemovalPolicy::AtCost, realized@.subrange(0, i + 1))
                            =~= apply_policy(
                            RemovalPolicy::AtCost,
                            realized@.subrange(0, i as int),
                        ).push(zero_profit_of(realized@[i as int])));
                    }
                    i = i + 1;
                }
                proof {
                    assert(realized@.subrange(0, realized@.len() as int) =~= realized@);
                }
                out
            },
            RemovalPolicy::AtZero => {
                let mut out: Vec<Realized> = Vec::new();
                let mut i: usize = 0;
                while i < realized.len()
                    invariant
                        0 <= i <= realized@.len(),
                        self@.policy == RemovalPolicy::AtZero,
                        out@ == apply_policy(
                            RemovalPolicy::AtZero,
                            realized@.subrange(0, i as int),
                        ),
                    decreases realized@.len() - i,
                {
                    let mut x = realized[i];
                    x.zero_value();
                    out.push(x);
                    proof {
                        assert(apply_policy(RemovalPolicy::AtZero, realized@.subrange(0, i + 1))
                            =~= apply_policy(
                            RemovalPolicy::AtZero,
                            realized@.subrange(0, i as int),
                        ).push(zero_value_of(realized@[i as int])));
                    }
                    i = i + 1;
                }
                proof {
                    assert(realized@.subrange(0, realized@.len() as int) =~= realized@);
                }
                out
            },
        }
    }

    /// Applies one inventory change: a change in the holding's direction is
    /// appended as a new open lot; an opposing change is matched against the
    /// oldest lots first, splitting a lot or the change where sizes do not
    /// align, until the change is used up or flips what is left of it into
    /// new inventory.  The realized matches are returned in match order; the
    /// matches of a `Remove`-kind change are first run through the
    /// configured removal-valuation policy.  A change with zero quantity is
    /// rejected and leaves the holding untouched.
    ///
    /// Changes must be fed in date order; the holding does not re-sort.
    pub fn add_transaction<T: VolumeSplit + Copy>(&mut self, inv: &T) -> (r: Result<
        Vec<Realized>,
        InventoryError,
    >)
        requires
            old(self)@.wf(),
            inv.inv_wf(),
            sum_abs_lot_quantity(old(self)@.lots) + abs_i(inv.chg().quantity) <= i64::MAX as int,
            sum_abs_lot_basis(old(self)@.lots) + abs_i(inv.chg().basis) <= i64::MAX as int,
        ensures
            final(self)@.wf(),
            final(self)@.policy == old(self)@.policy,
            r is Ok <==> inv.chg().quantity != 0,
            inv.chg().quantity == 0 ==> *final(self) == *old(self) && (r matches Err(e) && e
                == InventoryError::InvalidArgument),
            inv.chg().quantity != 0 ==> ({
                let g = apply_change(old(self)@.lots, old(self)@.direction, inv.chg());
                &&& final(self)@.lots == g.1
                &&& final(self)@.direction == g.2
                &&& (r matches Ok(ms) && ms@ == step_result(
                    old(self)@.lots,
                    old(self)@.direction,
                    inv.chg(),
                    old(self)@.policy,
                ))
            }),
            sum_abs_lot_quantity(final(self)@.lots) <= sum_abs_lot_quantity(old(self)@.lots)
                + abs_i(inv.chg().quantity),
            sum_abs_lot_basis(final(self)@.lots) <= sum_abs_lot_basis(old(self)@.lots) + abs_i(
                inv.chg().basis,
            ),
    {
        proof {
            inv.lemma_chg_bounds();
        }
        if inv.quantity() == 0 {
            return Err(InventoryError::InvalidArgument);
        }
        let ghost lots0 = self@.lots;
        let ghost dir0 = self@.direction;
        let ghost pol0 = self@.policy;
        let ghost c0 = inv.chg();
        let ghost g0 = apply_change(lots0, dir0, c0);
        let mut out: Vec<Realized> = Vec::new();
        let mut cur: T = *inv;
        loop
            invariant_except_break
                self@.policy == pol0,
                self@.wf(),
                cur.inv_wf(),
                cur.chg().quantity != 0,
                sum_abs_lot_quantity(self@.lots) + abs_i(cur.chg().quantity)
                    <= sum_abs_lot_quantity(lots0) + abs_i(c0.quantity),
                sum_abs_lot_basis(self@.lots) + abs_i(cur.chg().basis) <= sum_abs_lot_basis(lots0)
                    + abs_i(c0.basis),
                sum_abs_lot_quantity(lots0) + abs_i(c0.quantity) <= i64::MAX as int,
                sum_abs_lot_basis(lots0) + abs_i(c0.basis) <= i64::MAX as int,
                ({
                    let g = apply_change(self@.lots, self@.direction, cur.chg());
                    g0.0 == out@ + g.0 && g0.1 == g.1 && g0.2 == g.2
                }),
                forall|i: int| 0 <= i < out@.len() ==> #[trigger] out@[i].open_basis != i64::MIN,
            ensures
                out@ == g0.0,
                self@.lots == g0.1,
                self@.direction == g0.2,
                self@.policy == pol0,
                self@.wf(),
                sum_abs_lot_quantity(self@.lots) <= sum_abs_lot_quantity(lots0) + abs_i(
                    c0.quantity,
                ),
                sum_abs_lot_basis(self@.lots) <= sum_abs_lot_basis(lots0) + abs_i(c0.basis),
                forall|i: int| 0 <= i < out@.len() ==> #[trigger] out@[i].open_basis != i64::MIN,
            decreases self.unrealized.len(),
        {
            proof {
                cur.lemma_chg_bounds();
            }
            if self.match_direction(&cur) {
                let ghost lots_b = self@.lots;
                let ghost dir_b = self@.direction;
                let ur = URealized::from_inventory(&cur);
                self.add_inventory(ur);
                proof {
                    assert(ur == lot_of(cur.chg()));
                    let g = apply_change(lots_b, dir_b, cur.chg());
                    assert(g.0 =~= Seq::<Realized>::empty());
                    assert(out@ + g.0 =~= out@);
                    lemma_lot_sums_push(lots_b, ur);
                }
                break ;
            }
            let ghost lots_i = self@.lots;
            let ghost dir_i = self@.direction;
            let ghost c_i = cur.chg();
            proof {
                lemma_opposing(lots_i, dir_i, c_i.quantity);
                lemma_lot_sums_first(lots_i);
                lemma_lot_sums_abs(lots_i.drop_first());
            }
            let ghost front = lots_i[0];
            let ghost fq = front.quantity as int;
            let splits = self.split_matching_first(cur);
            let ghost lots_s = self@.lots;
            proof {
                // In every case the front of the lots is now exactly opposite
                // the first returned change part.
                if c_i.quantity + fq == 0 {
                    assert(splits@[0] == cur);
                } else if abs_i(fq) > abs_i(c_i.quantity) {
                    lemma_lot_split(front, abs_i(c_i.quantity));
                    lemma_lot_sums_first(lots_s);
                    assert(lots_s.drop_first() =~= seq![
                        lot_split_rest(front, abs_i(c_i.quantity)),
                    ] + lots_i.drop_first());
                    lemma_lot_sums_first(lots_s.drop_first());
                    assert((seq![lot_split_rest(front, abs_i(c_i.quantity))]
                        + lots_i.drop_first()).drop_first() =~= lots_i.drop_first());
                } else {
                    lemma_prorate_bounds(c_i.basis, abs_i(fq), abs_i(c_i.quantity));
                }
            }
            let r0 = self.match_close(&splits[0]);
            out.push(r0);
            proof {
                lemma_lot_sums_abs(self@.lots);
                assert(abs_i(r0.open_basis as int) <= sum_abs_lot_basis(lots_i));
            }
            if splits.len() > 1 {
                cur = splits[1];
                proof {
                    // Stitch: the one match just made is the head of what the
                    // step produces; the rest comes from the carried remainder.
                    let g_i = apply_change(lots_i, dir_i, c_i);
                    let g_n = apply_change(self@.lots, self@.direction, cur.chg());
                    assert(g_i.0 =~= seq![r0] + g_n.0);
                    assert(out@ =~= (out@.drop_last()).push(r0));
                    assert(out@.drop_last() + (seq![r0] + g_n.0) =~= out@ + g_n.0);
                    assert(g0.0 == out@ + g_n.0);
                }
            } else {
                proof {
                    let g_i = apply_change(lots_i, dir_i, c_i);
                    assert(g_i.0 =~= seq![r0]);
                    assert(out@.drop_last() + seq![r0] =~= out@);
                }
                break ;
            }
        }
        let result = if inv.itype() == InventoryType::Remove {
            self.mod_removed(out)
        } else {
            out
        };
        Ok(result)
    }

    /// Builds a holding containing one inventory change as its first open
    /// lot.
    pub fn new<T: VolumeSplit + Copy>(inv: &T) -> (r: Holding)
        requires
            inv.inv_wf(),
            inv.chg().quantity != 0,
            abs_i(inv.chg().quantity) <= i64::MAX as int,
            abs_i(inv.chg().basis) <= i64::MAX as int,
        ensures
            r@.lots == seq![lot_of(inv.chg())],
            r@.direction == Some(dir_of(inv.chg().quantity)),
            r@.policy == RemovalPolicy::Neutral,
            r@.wf(),
    {
        let mut gains = Holding::default();
        let res = gains.add_transaction(inv);
        proof {
            assert(res is Ok);
            assert(Seq::<URealized>::empty().push(lot_of(inv.chg())) =~= seq![
                lot_of(inv.chg()),
            ]);
        }
        gains
    }

    /// Applies an ordered batch of inventory changes one after the other,
    /// concatenating the realized matches each one produces.  If any change
    /// in the batch has zero quantity the whole batch is rejected before
    /// anything is applied.
    ///
    /// The batch must be sorted by date; the holding does not re-sort.
    pub fn extend_transactions<T: VolumeSplit + Copy>(&mut self, invs: &[T]) -> (r: Result<
        Vec<Realized>,
        InventoryError,
    >)
        requires
            old(self)@.wf(),
            forall|i: int| 0 <= i < invs@.len() ==> #[trigger] invs@[i].inv_wf(),
            sum_abs_lot_quantity(old(self)@.lots) + sum_abs_chg_quantity(changes_of(invs@))
                <= i64::MAX as int,
            sum_abs_lot_basis(old(self)@.lots) + sum_abs_chg_basis(changes_of(invs@))
                <= i64::MAX as int,
        ensures
            final(self)@.wf(),
            final(self)@.policy == old(self)@.policy,
            r is Ok <==> (forall|i: int|
                0 <= i < invs@.len() ==> #[trigger] invs@[i].chg().quantity != 0),
            r is Err ==> *final(self) == *old(self) && (r matches Err(e) && e
                == InventoryError::InvalidArgument),
            r is Ok ==> ({
                let g = apply_changes(
                    old(self)@.lots,
                    old(self)@.direction,
                    changes_of(invs@),
                    old(self)@.policy,
                );
                &&& (r matches Ok(ms) && ms@ == g.0)
                &&& final(self)@.lots == g.1
                &&& final(self)@.direction == g.2
            }),
    {
        let ghost cs = changes_of(invs@);
        let mut i: usize = 0;
        while i < invs.len()
            invariant
                0 <= i <= invs@.len(),
                *self == *old(self),
                old(self)@.wf(),
                forall|k: int| 0 <= k < invs@.len() ==> #[trigger] invs@[k].inv_wf(),
                forall|k: int| 0 <= k < i ==> #[trigger] invs@[k].chg().quantity != 0,
            decreases invs@.len() - i,
        {
            if invs[i].quantity() == 0 {
                return Err(InventoryError::InvalidArgument);
            }
            i = i + 1;
        }
        proof {
            assert(cs.subrange(0, cs.len() as int) =~= cs);
        }
        let ghost lots0 = self@.lots;
        let ghost dir0 = self@.direction;
        let ghost pol0 = self@.policy;
        let ghost gt = apply_changes(lots0, dir0, cs, pol0);
        let mut gains_r: Vec<Realized> = Vec::new();
        proof {
            assert(Seq::<Realized>::empty() + gt.0 =~= gt.0);
        }
        let mut i: usize = 0;
        while i < invs.len()
            invariant
                0 <= i <= invs@.len(),
                cs == changes_of(invs@),
                cs.len() == invs@.len(),
                gt == apply_changes(lots0, dir0, cs, pol0),
                self@.policy == pol0,
                self@.wf(),
                forall|k: int| 0 <= k < invs@.len() ==> #[trigger] invs@[k].inv_wf(),
                forall|k: int| 0 <= k < invs@.len() ==> #[trigger] invs@[k].chg().quantity != 0,
                sum_abs_lot_quantity(self@.lots) + sum_abs_chg_quantity(
                    cs.subrange(i as int, cs.len() as int),
                ) <= i64::MAX as int,
                sum_abs_lot_basis(self@.lots) + sum_abs_chg_basis(
                    cs.subrange(i as int, cs.len() as int),
                ) <= i64::MAX as int,
                ({
                    let g = apply_changes(
                        self@.lots,
                        self@.direction,
                        cs.subrange(i as int, cs.len() as int),
                        pol0,
                    );
                    gt.0 == gains_r@ + g.0 && gt.1 == g.1 && gt.2 == g.2
                }),
            decreases invs@.len() - i,
        {
            let ghost lots_i = self@.lots;
            let ghost dir_i = self@.direction;
            let ghost rem = cs.subrange(i as int, cs.len() as int);
            proof {
                lemma_chg_sums_first(rem);
                lemma_chg_sums_first(rem.drop_first());
                assert(rem[0] == cs[i as int]);
                assert(rem.drop_first() =~= cs.subrange(i + 1, cs.len() as int));
                assert(invs@[i as int].chg() == cs[i as int]);
            }
            let res = self.add_transaction(&invs[i]);
            let mut rs = match res {
                Ok(v) => v,
                Err(_) => {
                    proof {
                        assert(false);
                    }
                    vstd::pervasive::unreached()
                },
            };
            let ghost rsv = rs@;
            gains_r.append(&mut rs);
            proof {
                let g_i = apply_changes(lots_i, dir_i, rem, pol0);
                let g_n = apply_changes(
                    self@.lots,
                    self@.direction,
                    cs.subrange(i + 1, cs.len() as int),
                    pol0,
                );
                assert(g_i.0 =~= rsv + g_n.0);
                assert((gains_r@.subrange(0, gains_r@.len() - rsv.len() as int)) + rsv
                    =~= gains_r@) by {
                    assert(gains_r@.subrange(0, gains_r@.len() - rsv.len() as int) + rsv
                        =~= gains_r@);
                }
                assert(gt.0 =~= gains_r@ + g_n.0);
            }
            i = i + 1;
        }
        proof {
            assert(cs.subrange(invs@.len() as int, cs.len() as int) =~= Seq::<ChangeData>::empty());
            let g_end = apply_changes(
                self@.lots,
                self@.direction,
                cs.subrange(invs@.len() as int, cs.len() as int),
                pol0,
            );
            assert(g_end.0 =~= Seq::<Realized>::empty());
            assert(gains_r@ + Seq::<Realized>::empty() =~= gains_r@);
        }
        Ok(gains_r)
    }
}

/// Zero reset: whenever a well-formed holding's open-lot quantities sum to
/// zero, its inventory is empty and its direction is cleared — the holding
/// can never sit on a netted-out position.
pub proof fn lemma_zero_net_is_reset(h: HoldingView)
    requires
        h.wf(),
    ensures
        sum_lot_quantity(h.lots) == 0 ==> h.lots.len() == 0 && h.direction is None,
{
    if h.lots.len() > 0 {
        let d = h.direction.unwrap();
        lemma_lot_sum_sign(h.lots, d);
    }
}

/// Neutral round trip: a change in the holding's own direction (or into an
/// empty holding) never produces a realized match and always grows the
/// inventory by exactly one lot, appended at the tail.
pub proof fn lemma_same_direction_appends(
    lots: Seq<URealized>,
    direction: Option<InventoryType>,
    c: ChangeData,
)
    requires
        matches_direction(direction, c.quantity),
    ensures
        apply_change(lots, direction, c).0 == Seq::<Realized>::empty(),
        apply_change(lots, direction, c).1 == lots.push(lot_of(c)),
        apply_change(lots, direction, c).1.len() == lots.len() + 1,
{
}

/// First-in-first-out: an opposing change always closes the oldest
/// surviving open lot first.  The k-th match it produces pairs against the
/// k-th oldest open lot (or a front fragment of it), at least the oldest
/// lot is matched, and no more lots are matched than the holding has.
pub proof fn lemma_fifo_order(
    lots: Seq<URealized>,
    direction: Option<InventoryType>,
    c: ChangeData,
)
    requires
        lots_consistent(lots, direction),
        !matches_direction(direction, c.quantity),
        c.quantity != 0,
    ensures
        1 <= apply_change(lots, direction, c).0.len() <= lots.len(),
        forall|k: int|
            0 <= k < apply_change(lots, direction, c).0.len() ==> #[trigger] apply_change(
                lots,
                direction,
                c,
            ).0[k].open_date == lots[k].date,
    decreases lots.len(),
{
    lemma_opposing(lots, direction, c.quantity);
    let front = lots[0];
    let fq = front.quantity as int;
    if c.quantity + fq == 0 {
        // One match against the front lot.
    } else if abs_i(fq) > abs_i(c.quantity) {
        lemma_lot_split(front, abs_i(c.quantity));
    } else {
        assert(abs_i(fq) < abs_i(c.quantity));
        let m = split_part(c, abs_i(fq));
        let rest = split_rest(c, abs_i(fq));
        assert(rest.quantity != 0 && dir_of(rest.quantity) == dir_of(c.quantity));
        let zr = zero_reset(lots.drop_first(), direction);
        let l2 = zr.0;
        let d2 = zr.1;
        if l2.len() == 0 {
            // Either the lots ran out or the zero-reset rule cleared them:
            // the remaining change is appended and produces no further match.
            assert(matches_direction(d2, rest.quantity));
            assert(apply_change(l2, d2, rest).0 =~= Seq::<Realized>::empty());
            assert(apply_change(lots, direction, c).0 =~= seq![realize_of(m, front)]);
        } else {
            assert(l2 == lots.drop_first() && d2 == direction);
            let d = direction.unwrap();
            assert forall|j: int|
                0 <= j < l2.len() implies (d == InventoryType::Long ==> #[trigger] l2[j].quantity
                > 0) && (d == InventoryType::Short ==> l2[j].quantity < 0) by {
                assert(l2[j] == lots[j + 1]);
            }
            assert(lots_consistent(l2, d2));
            lemma_fifo_order(l2, d2, rest);
            let ms = apply_change(lots, direction, c).0;
            let ms2 = apply_change(l2, d2, rest).0;
            assert(ms =~= seq![realize_of(m, front)] + ms2);
            assert forall|k: int| 0 <= k < ms.len() implies #[trigger] ms[k].open_date
                == lots[k].date by {
                if k > 0 {
                    assert(ms[k] == ms2[k - 1]);
                    assert(ms2[k - 1].open_date == l2[k - 1].date);
                    assert(l2[k - 1] == lots[k]);
                }
            }
        }
    }
}

/// Policy gating: a `Remove`-kind change against a holding with the neutral
/// (default) policy hands back no matches at all, even though matching has
/// run — the lots and direction move exactly as the raw matching dictates,
/// whatever the policy.  The same change under the zero-value policy keeps
/// every match, with each close basis forced to zero and the open basis
/// realized as the gain.
pub proof fn lemma_removal_policy_gating(
    lots: Seq<URealized>,
    direction: Option<InventoryType>,
    c: ChangeData,
)
    requires
        c.itype == InventoryType::Remove,
    ensures
        step_result(lots, direction, c, RemovalPolicy::Neutral) == Seq::<Realized>::empty(),
        step_result(lots, direction, c, RemovalPolicy::AtZero).len() == apply_change(
            lots,
            direction,
            c,
        ).0.len(),
        ({
            let raw = apply_change(lots, direction, c).0;
            let zs = step_result(lots, direction, c, RemovalPolicy::AtZero);
            forall|k: int|
                0 <= k < raw.len() ==> #[trigger] zs[k].close_basis == 0 && zs[k].gain
                    == raw[k].open_basis
        }),
{
}

} // verus!

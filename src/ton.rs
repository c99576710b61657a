//! Gammatons, surfels, and the rules by which they exchange substances.
//!
//! Probabilities, substance concentrations and rates are fixed-point
//! numbers: `UNIT` stands for 1.
use vstd::prelude::*;

use crate::aabb::Point3;
use crate::poisson::dist_sq;
use crate::random::random_below;

verus! {

/// The fixed-point value of 1.
pub const UNIT: u32 = 1000000;

/// A particle that carries substances through the scene.
pub struct Ton {
    /// Probability of moving further in a straight line.
    pub p_straight: u32,
    /// Probability of moving further along a parabola.
    pub p_parabolic: u32,
    /// Probability of flowing along the surface.
    pub p_flow: u32,
    /// Radius around a hit within which surfels interact, in grid units.
    pub interaction_radius: u32,
    /// Height of a vertical bounce, in grid units.
    pub parabola_height: u32,
    /// Amount of each substance carried.
    pub substances: Vec<u32>,
    /// Rate at which each substance is picked up from surfels.
    pub pickup_rates: Vec<u32>,
}

/// A point sample of the surface with the substances it holds.
pub struct Surfel {
    pub position: Point3,
    /// The direction of the surface normal, not normalized.
    pub normal: Point3,
    /// Texture coordinates, fixed-point with `UNIT` for 1.
    pub texcoords: (u32, u32),
    /// Index of the entity of the scene the surfel lies on.
    pub entity_idx: usize,
    /// Concentration of each substance.
    pub substances: Vec<u32>,
    /// Rate at which each substance is deposited from a settling ton.
    pub deposition_rates: Vec<u32>,
    /// How much an interaction lowers a ton's probability of each motion.
    pub delta_straight: u32,
    pub delta_parabolic: u32,
    pub delta_flow: u32,
}

/// The surfels of the scene, addressed by their index.
pub struct Surface {
    pub samples: Vec<Surfel>,
}

/// How a ton goes on after an interaction.
#[derive(Clone, Copy, Debug, PartialEq, Eq, Structural)]
pub enum Motion {
    Straight,
    Parabolic,
    Flow,
    /// The ton deposits its substances and ends.
    Settle,
}

impl Ton {
    /// Every substance has a pickup rate.
    pub open spec fn wf(&self) -> bool {
        self.substances@.len() == self.pickup_rates@.len()
    }
}

impl Surfel {
    /// Every substance has a deposition rate.
    pub open spec fn wf(&self) -> bool {
        self.substances@.len() == self.deposition_rates@.len()
    }
}

pub open spec fn sat_sub(a: u32, b: u32) -> u32 {
    if a > b { (a - b) as u32 } else { 0 }
}

/// The share of `amount` that `rate` moves, split evenly among `n`.
pub open spec fn share(rate: u32, amount: u32, n: nat) -> int {
    (rate * amount / (UNIT as int)) / (n as int)
}

/// `v`, but at most `UNIT`.
pub open spec fn cap_unit(v: int) -> u32 {
    if v > UNIT { UNIT } else { v as u32 }
}

/// `s` less `amt`, but at least 0.
pub open spec fn take_from(s: u32, amt: int) -> u32 {
    if amt >= s { 0 } else { (s - amt) as u32 }
}

/// A surfel's substances after a ton picked up its share from them.
pub open spec fn picked_surfel(s: Seq<u32>, rates: Seq<u32>, n: nat) -> Seq<u32> {
    Seq::new(s.len(), |i: int| take_from(s[i], share(rates[i], s[i], n)))
}

/// A ton's substances after it picked up its share of the surfel's `s`.
pub open spec fn picked_ton(t: Seq<u32>, s: Seq<u32>, rates: Seq<u32>, n: nat) -> Seq<u32> {
    Seq::new(t.len(), |i: int| cap_unit(t[i] + share(rates[i], s[i], n)))
}

/// A surfel's substances after a ton carrying `t` deposited into it.
pub open spec fn deposited(s: Seq<u32>, t: Seq<u32>, rates: Seq<u32>, n: nat) -> Seq<u32> {
    Seq::new(s.len(), |i: int| cap_unit(s[i] + share(rates[i], t[i], n)))
}

/// The substances of all surfels, and of the ton, after the ton picked up
/// from the surfels at `idxs` in turn, each sharing `1/n` of the rates.
pub open spec fn pickup_all(
    subs: Seq<Seq<u32>>,
    t: Seq<u32>,
    rates: Seq<u32>,
    idxs: Seq<usize>,
    n: nat,
) -> (Seq<Seq<u32>>, Seq<u32>)
    decreases idxs.len(),
{
    if idxs.len() == 0 {
        (subs, t)
    } else {
        let prev = pickup_all(subs, t, rates, idxs.drop_last(), n);
        let j = idxs.last() as int;
        (
            prev.0.update(j, picked_surfel(prev.0[j], rates, n)),
            picked_ton(prev.1, prev.0[j], rates, n),
        )
    }
}

/// The substances of all surfels after a ton carrying `t` deposited into
/// the surfels at `idxs` in turn, each with its own rates shared `1/n`.
pub open spec fn deposit_all(
    subs: Seq<Seq<u32>>,
    rates: Seq<Seq<u32>>,
    t: Seq<u32>,
    idxs: Seq<usize>,
    n: nat,
) -> Seq<Seq<u32>>
    decreases idxs.len(),
{
    if idxs.len() == 0 {
        subs
    } else {
        let prev = deposit_all(subs, rates, t, idxs.drop_last(), n);
        let j = idxs.last() as int;
        prev.update(j, deposited(prev[j], t, rates[j], n))
    }
}

/// The motion that a draw `r` out of `0..UNIT` selects: straight below
/// `p_straight`, parabolic below `p_straight + p_parabolic`, flow below the
/// sum of all three, and settling otherwise.
pub open spec fn motion_of(p_straight: u32, p_parabolic: u32, p_flow: u32, r: u32) -> Motion {
    if r < p_straight {
        Motion::Straight
    } else if r < p_straight + p_parabolic {
        Motion::Parabolic
    } else if r < p_straight + p_parabolic + p_flow {
        Motion::Flow
    } else {
        Motion::Settle
    }
}

/// Whether a draw `r` keeps the ton moving: it falls below the sum of its
/// motion probabilities.
pub open spec fn keeps_moving(t: &Ton, r: u32) -> bool {
    r < t.p_straight + t.p_parabolic + t.p_flow
}

pub open spec fn substances_of(samples: Seq<Surfel>) -> Seq<Seq<u32>> {
    samples.map_values(|s: Surfel| s.substances@)
}

pub open spec fn deposition_rates_of(samples: Seq<Surfel>) -> Seq<Seq<u32>> {
    samples.map_values(|s: Surfel| s.deposition_rates@)
}

/// Two surfels agree in everything but their substances.
pub open spec fn same_but_substances(a: Surfel, b: Surfel) -> bool {
    &&& a.position == b.position
    &&& a.normal == b.normal
    &&& a.texcoords == b.texcoords
    &&& a.entity_idx == b.entity_idx
    &&& a.deposition_rates@ == b.deposition_rates@
    &&& a.delta_straight == b.delta_straight
    &&& a.delta_parabolic == b.delta_parabolic
    &&& a.delta_flow == b.delta_flow
}

/// Every index names a surfel, and every surfel it names carries as many
/// substances as the ton.
pub open spec fn interacting(samples: Seq<Surfel>, idxs: Seq<usize>, substance_count: nat) -> bool {
    forall|k: int|
        0 <= k < idxs.len() ==> {
            &&& (#[trigger] idxs[k]) < samples.len()
            &&& samples[idxs[k] as int].substances@.len() == substance_count
            &&& samples[idxs[k] as int].wf()
        }
}

/// Selects the motion for a draw `r` out of `0..UNIT`.
pub fn next_motion(p_straight: u32, p_parabolic: u32, p_flow: u32, r: u32) -> (m: Motion)
    ensures
        m == motion_of(p_straight, p_parabolic, p_flow, r),
{
    let r = r as u64;
    let s = p_straight as u64;
    let sp = s + p_parabolic as u64;
    let spf = sp + p_flow as u64;
    if r < s {
        Motion::Straight
    } else if r < sp {
        Motion::Parabolic
    } else if r < spf {
        Motion::Flow
    } else {
        Motion::Settle
    }
}

/// Lowers each motion probability of the ton by the surfel's deterioration
/// rate for it, stopping at 0.
pub fn deteriorate_motion_probabilities(ton: &mut Ton, surfel: &Surfel)
    ensures
        final(ton).p_straight == sat_sub(old(ton).p_straight, surfel.delta_straight),
        final(ton).p_parabolic == sat_sub(old(ton).p_parabolic, surfel.delta_parabolic),
        final(ton).p_flow == sat_sub(old(ton).p_flow, surfel.delta_flow),
        final(ton).p_straight <= old(ton).p_straight,
        final(ton).p_parabolic <= old(ton).p_parabolic,
        final(ton).p_flow <= old(ton).p_flow,
        final(ton).interaction_radius == old(ton).interaction_radius,
        final(ton).parabola_height == old(ton).parabola_height,
        final(ton).substances@ == old(ton).substances@,
        final(ton).pickup_rates@ == old(ton).pickup_rates@,
{
    ton.p_straight = if ton.p_straight > surfel.delta_straight {
        ton.p_straight - surfel.delta_straight
    } else {
        0
    };
    ton.p_parabolic = if ton.p_parabolic > surfel.delta_parabolic {
        ton.p_parabolic - surfel.delta_parabolic
    } else {
        0
    };
    ton.p_flow = if ton.p_flow > surfel.delta_flow {
        ton.p_flow - surfel.delta_flow
    } else {
        0
    };
}

fn share_of(rate: u32, amount: u32, n: usize) -> (r: u64)
    requires
        n > 0,
    ensures
        r == share(rate, amount, n as nat),
        r <= 0xffff_ffff_ffff,
{
    proof {
        assert(0 <= rate * amount <= 0xffff_ffff * 0xffff_ffff) by (nonlinear_arith)
            requires
                rate <= 0xffff_ffff,
                amount <= 0xffff_ffff,
        ;
    }
    let prod: u64 = rate as u64 * amount as u64;
    let scaled = prod / (UNIT as u64);
    proof {
        let p = prod as int;
        assert(p / 1000000 <= 0xffff_ffff_ffff) by (nonlinear_arith)
            requires
                0 <= p <= 0xffff_ffff * 0xffff_ffff,
        ;
    }
    proof {
        let sc = scaled as int;
        let nn = n as int;
        assert(sc / nn <= sc) by (nonlinear_arith)
            requires
                nn > 0,
                sc >= 0,
        ;
    }
    scaled / (n as u64)
}

fn cap(v: u64) -> (r: u32)
    ensures
        r == cap_unit(v as int),
{
    if v > UNIT as u64 {
        UNIT
    } else {
        v as u32
    }
}

/// Moves the ton's share of one surfel's substances to the ton.
fn pick_up_from(s: &mut Vec<u32>, t: &mut Vec<u32>, rates: &Vec<u32>, n: usize)
    requires
        n > 0,
        old(s)@.len() == old(t)@.len(),
        rates@.len() == old(t)@.len(),
    ensures
        final(s)@ == picked_surfel(old(s)@, rates@, n as nat),
        final(t)@ == picked_ton(old(t)@, old(s)@, rates@, n as nat),
{
    let ghost s0 = s@;
    let ghost t0 = t@;
    let mut i: usize = 0;
    while i < s.len()
        invariant
            n > 0,
            s@.len() == s0.len(),
            t@.len() == t0.len(),
            s0.len() == t0.len(),
            rates@.len() == t0.len(),
            i <= s@.len(),
            forall|j: int|
                0 <= j < i ==> #[trigger] s@[j] == take_from(s0[j], share(rates@[j], s0[j], n as nat)),
            forall|j: int|
                0 <= j < i ==> #[trigger] t@[j] == cap_unit(t0[j] + share(rates@[j], s0[j], n as nat)),
            forall|j: int| i <= j < s@.len() ==> #[trigger] s@[j] == s0[j],
            forall|j: int| i <= j < t@.len() ==> #[trigger] t@[j] == t0[j],
        decreases s@.len() - i,
    {
        let amount = share_of(rates[i], s[i], n);
        let sv = s[i];
        let tv = t[i];
        let new_s: u32 = if amount >= sv as u64 {
            0
        } else {
            sv - amount as u32
        };
        s.set(i, new_s);
        t.set(i, cap(tv as u64 + amount));
        i = i + 1;
    }
    assert(s@ =~= picked_surfel(s0, rates@, n as nat));
    assert(t@ =~= picked_ton(t0, s0, rates@, n as nat));
}

/// Moves a settling ton's substances into one surfel, by the surfel's rates.
fn deposit_into(s: &mut Vec<u32>, t: &Vec<u32>, rates: &Vec<u32>, n: usize)
    requires
        n > 0,
        old(s)@.len() == t@.len(),
        rates@.len() == t@.len(),
    ensures
        final(s)@ == deposited(old(s)@, t@, rates@, n as nat),
{
    let ghost s0 = s@;
    let mut i: usize = 0;
    while i < s.len()
        invariant
            n > 0,
            s@.len() == s0.len(),
            s0.len() == t@.len(),
            rates@.len() == t@.len(),
            i <= s@.len(),
            forall|j: int|
                0 <= j < i ==> #[trigger] s@[j] == cap_unit(s0[j] + share(rates@[j], t@[j], n as nat)),
            forall|j: int| i <= j < s@.len() ==> #[trigger] s@[j] == s0[j],
        decreases s@.len() - i,
    {
        let amount = share_of(rates[i], t[i], n);
        let sv = s[i];
        s.set(i, cap(sv as u64 + amount));
        i = i + 1;
    }
    assert(s@ =~= deposited(s0, t@, rates@, n as nat));
}

/// Moves material from the interacting surfels at `idxs` to the ton. Each
/// surfel in turn gives up, for each substance, the ton's pickup rate split
/// evenly among the surfels times what it holds; the surfel keeps at least
/// 0 and the ton holds at most `UNIT`.
pub fn transport_material_to_ton(surface: &mut Surface, idxs: &Vec<usize>, ton: &mut Ton)
    requires
        old(ton).wf(),
        idxs@.len() > 0,
        interacting(old(surface).samples@, idxs@, old(ton).substances@.len()),
    ensures
        ({
            let r = pickup_all(
                substances_of(old(surface).samples@),
                old(ton).substances@,
                old(ton).pickup_rates@,
                idxs@,
                idxs@.len(),
            );
            &&& substances_of(final(surface).samples@) == r.0
            &&& final(ton).substances@ == r.1
        }),
        final(surface).samples@.len() == old(surface).samples@.len(),
        forall|j: int|
            0 <= j < old(surface).samples@.len() ==> same_but_substances(
                #[trigger] final(surface).samples@[j],
                old(surface).samples@[j],
            ),
        final(ton).p_straight == old(ton).p_straight,
        final(ton).p_parabolic == old(ton).p_parabolic,
        final(ton).p_flow == old(ton).p_flow,
        final(ton).interaction_radius == old(ton).interaction_radius,
        final(ton).parabola_height == old(ton).parabola_height,
        final(ton).pickup_rates@ == old(ton).pickup_rates@,
        final(ton).wf(),
{
    let ghost s0 = surface.samples@;
    let ghost t0 = ton.substances@;
    let n = idxs.len();
    let mut k: usize = 0;
    while k < n
        invariant
            n == idxs@.len(),
            n > 0,
            k <= n,
            ton.wf(),
            ton.pickup_rates@ == old(ton).pickup_rates@,
            ton.substances@.len() == t0.len(),
            ton.p_straight == old(ton).p_straight,
            ton.p_parabolic == old(ton).p_parabolic,
            ton.p_flow == old(ton).p_flow,
            ton.interaction_radius == old(ton).interaction_radius,
            ton.parabola_height == old(ton).parabola_height,
            interacting(s0, idxs@, t0.len()),
            surface.samples@.len() == s0.len(),
            forall|j: int|
                0 <= j < s0.len() ==> same_but_substances(#[trigger] surface.samples@[j], s0[j]),
            forall|j: int|
                0 <= j < s0.len() ==> (#[trigger] surface.samples@[j]).substances@.len()
                    == s0[j].substances@.len(),
            ({
                let r = pickup_all(
                    substances_of(s0),
                    t0,
                    ton.pickup_rates@,
                    idxs@.subrange(0, k as int),
                    n as nat,
                );
                &&& substances_of(surface.samples@) == r.0
                &&& ton.substances@ == r.1
            }),
        decreases n - k,
    {
        let j = idxs[k];
        proof {
            assert(idxs@[k as int] < s0.len());
        }
        let ghost before = surface.samples@;
        let ghost tb = ton.substances@;
        let mut sub: Vec<u32> = Vec::new();
        std::mem::swap(&mut surface.samples[j].substances, &mut sub);
        pick_up_from(&mut sub, &mut ton.substances, &ton.pickup_rates, n);
        std::mem::swap(&mut surface.samples[j].substances, &mut sub);
        proof {
            let pre = idxs@.subrange(0, k as int);
            let cur = idxs@.subrange(0, k + 1);
            assert(cur.drop_last() =~= pre);
            assert(cur.last() == j);
            assert(substances_of(surface.samples@) =~= substances_of(before).update(
                j as int,
                picked_surfel(substances_of(before)[j as int], ton.pickup_rates@, n as nat),
            ));
            assert forall|i: int| 0 <= i < s0.len() implies same_but_substances(
                #[trigger] surface.samples@[i],
                s0[i],
            ) by {
                if i != j {
                    assert(surface.samples@[i] == before[i]);
                }
            }
        }
        k = k + 1;
    }
    assert(idxs@.subrange(0, n as int) =~= idxs@);
}

/// Deposits the ton's substances into the interacting surfels at `idxs`.
/// Each surfel in turn gains, for each substance, its deposition rate split
/// evenly among the surfels times what the ton carries, and holds at most
/// `UNIT`. The ton keeps what it carries.
pub fn transport_material_to_surf(ton: &Ton, surface: &mut Surface, idxs: &Vec<usize>)
    requires
        idxs@.len() > 0,
        interacting(old(surface).samples@, idxs@, ton.substances@.len()),
    ensures
        substances_of(final(surface).samples@) == deposit_all(
            substances_of(old(surface).samples@),
            deposition_rates_of(old(surface).samples@),
            ton.substances@,
            idxs@,
            idxs@.len(),
        ),
        final(surface).samples@.len() == old(surface).samples@.len(),
        forall|j: int|
            0 <= j < old(surface).samples@.len() ==> same_but_substances(
                #[trigger] final(surface).samples@[j],
                old(surface).samples@[j],
            ),
{
    let ghost s0 = surface.samples@;
    let n = idxs.len();
    let mut k: usize = 0;
    while k < n
        invariant
            n == idxs@.len(),
            n > 0,
            k <= n,
            interacting(s0, idxs@, ton.substances@.len()),
            surface.samples@.len() == s0.len(),
            forall|j: int|
                0 <= j < s0.len() ==> same_but_substances(#[trigger] surface.samples@[j], s0[j]),
            forall|j: int|
                0 <= j < s0.len() ==> (#[trigger] surface.samples@[j]).substances@.len()
                    == s0[j].substances@.len(),
            substances_of(surface.samples@) == deposit_all(
                substances_of(s0),
                deposition_rates_of(s0),
                ton.substances@,
                idxs@.subrange(0, k as int),
                n as nat,
            ),
        decreases n - k,
    {
        let j = idxs[k];
        proof {
            assert(idxs@[k as int] < s0.len());
        }
        let ghost before = surface.samples@;
        let mut sub: Vec<u32> = Vec::new();
        std::mem::swap(&mut surface.samples[j].substances, &mut sub);
        deposit_into(&mut sub, &ton.substances, &surface.samples[j].deposition_rates, n);
        std::mem::swap(&mut surface.samples[j].substances, &mut sub);
        proof {
            let pre = idxs@.subrange(0, k as int);
            let cur = idxs@.subrange(0, k + 1);
            assert(cur.drop_last() =~= pre);
            assert(cur.last() == j);
            assert(deposition_rates_of(s0)[j as int] == s0[j as int].deposition_rates@);
            assert(substances_of(surface.samples@) =~= substances_of(before).update(
                j as int,
                deposited(
                    substances_of(before)[j as int],
                    ton.substances@,
                    deposition_rates_of(s0)[j as int],
                    n as nat,
                ),
            ));
            assert forall|i: int| 0 <= i < s0.len() implies same_but_substances(
                #[trigger] surface.samples@[i],
                s0[i],
            ) by {
                if i != j {
                    assert(surface.samples@[i] == before[i]);
                }
            }
        }
        k = k + 1;
    }
    assert(idxs@.subrange(0, n as int) =~= idxs@);
}

/// What one interaction does, for a draw `r` out of `0..UNIT`, to the
/// surfels `s0` and ton `t0`, giving `s1`, `t1` and the motion `m`.
///
/// Without interacting surfels the ton ends and nothing changes. Otherwise
/// the motion is the one `r` selects by the ton's probabilities. If `r`
/// keeps the ton moving, its probabilities deteriorate by the first
/// surfel's rates and it picks up from all interacting surfels; if not, it
/// settles and deposits into them.
pub open spec fn interaction(
    s0: Seq<Surfel>,
    t0: Ton,
    s1: Seq<Surfel>,
    t1: Ton,
    idxs: Seq<usize>,
    r: u32,
    m: Option<Motion>,
) -> bool {
    &&& s1.len() == s0.len()
    &&& forall|j: int| 0 <= j < s0.len() ==> same_but_substances(#[trigger] s1[j], s0[j])
    &&& t1.interaction_radius == t0.interaction_radius
    &&& t1.parabola_height == t0.parabola_height
    &&& t1.pickup_rates@ == t0.pickup_rates@
    &&& if idxs.len() == 0 {
        &&& m.is_none()
        &&& substances_of(s1) == substances_of(s0)
        &&& t1.substances@ == t0.substances@
        &&& t1.p_straight == t0.p_straight
        &&& t1.p_parabolic == t0.p_parabolic
        &&& t1.p_flow == t0.p_flow
    } else {
        &&& m == Some(motion_of(t0.p_straight, t0.p_parabolic, t0.p_flow, r))
        &&& if keeps_moving(&t0, r) {
            let first = s0[idxs[0] as int];
            let picked = pickup_all(
                substances_of(s0),
                t0.substances@,
                t0.pickup_rates@,
                idxs,
                idxs.len(),
            );
            &&& t1.p_straight == sat_sub(t0.p_straight, first.delta_straight)
            &&& t1.p_parabolic == sat_sub(t0.p_parabolic, first.delta_parabolic)
            &&& t1.p_flow == sat_sub(t0.p_flow, first.delta_flow)
            &&& substances_of(s1) == picked.0
            &&& t1.substances@ == picked.1
        } else {
            &&& t1.p_straight == t0.p_straight
            &&& t1.p_parabolic == t0.p_parabolic
            &&& t1.p_flow == t0.p_flow
            &&& t1.substances@ == t0.substances@
            &&& substances_of(s1) == deposit_all(
                substances_of(s0),
                deposition_rates_of(s0),
                t0.substances@,
                idxs,
                idxs.len(),
            )
        }
    }
}

/// One interaction of the ton with the surfels at `idxs`, those within its
/// interaction radius of a hit, for a draw `r` out of `0..UNIT`. Returns
/// how the ton goes on, or `None` when no surfel interacts and the ton ends.
///
/// The ton's motion probabilities never increase.
pub fn interact(surface: &mut Surface, ton: &mut Ton, idxs: &Vec<usize>, r: u32) -> (m: Option<
    Motion,
>)
    requires
        old(ton).wf(),
        interacting(old(surface).samples@, idxs@, old(ton).substances@.len()),
    ensures
        interaction(
            old(surface).samples@,
            *old(ton),
            final(surface).samples@,
            *final(ton),
            idxs@,
            r,
            m,
        ),
        final(ton).wf(),
        final(ton).p_straight <= old(ton).p_straight,
        final(ton).p_parabolic <= old(ton).p_parabolic,
        final(ton).p_flow <= old(ton).p_flow,
{
    if idxs.len() == 0 {
        return None;
    }
    let motion = next_motion(ton.p_straight, ton.p_parabolic, ton.p_flow, r);
    let total: u64 = ton.p_straight as u64 + ton.p_parabolic as u64 + ton.p_flow as u64;
    if (r as u64) < total {
        proof {
            assert(idxs@[0] < surface.samples@.len());
        }
        deteriorate_motion_probabilities(ton, &surface.samples[idxs[0]]);
        transport_material_to_ton(surface, idxs, ton);
    } else {
        transport_material_to_surf(ton, surface, idxs);
    }
    Some(motion)
}

/// Like `interact`, with the draw taken from the thread-local generator.
pub fn interact_at_random(surface: &mut Surface, ton: &mut Ton, idxs: &Vec<usize>) -> (m: Option<
    Motion,
>)
    requires
        old(ton).wf(),
        interacting(old(surface).samples@, idxs@, old(ton).substances@.len()),
    ensures
        exists|r: u32|
            r < UNIT && interaction(
                old(surface).samples@,
                *old(ton),
                final(surface).samples@,
                *final(ton),
                idxs@,
                r,
                m,
            ),
        final(ton).wf(),
        final(ton).p_straight <= old(ton).p_straight,
        final(ton).p_parabolic <= old(ton).p_parabolic,
        final(ton).p_flow <= old(ton).p_flow,
{
    let r = random_below(UNIT as u64) as u32;
    interact(surface, ton, idxs, r)
}

/// Material conservation: when a ton picks up from a single surfel, what
/// the surfel loses of a substance the ton gains, as long as the pickup
/// rate is at most `UNIT` and the ton's amount stays at most `UNIT`.
pub proof fn lemma_pickup_conserves(
    subs: Seq<Seq<u32>>,
    t: Seq<u32>,
    rates: Seq<u32>,
    j: usize,
    i: int,
)
    requires
        j < subs.len(),
        subs[j as int].len() == t.len(),
        rates.len() == t.len(),
        0 <= i < t.len(),
        rates[i] <= UNIT,
        t[i] + share(rates[i], subs[j as int][i], 1) <= UNIT,
    ensures
        ({
            let r = pickup_all(subs, t, rates, seq![j], 1);
            r.0[j as int][i] - subs[j as int][i] == -(r.1[i] - t[i])
        }),
{
    let s = subs[j as int][i];
    let rate = rates[i];
    assert(rate * s / 1000000 <= s) by (nonlinear_arith)
        requires
            0 <= rate <= 1000000,
            0 <= s,
    ;
    let q = seq![j];
    assert(q.drop_last() =~= Seq::<usize>::empty());
    assert(q.last() == j);
    let prev = pickup_all(subs, t, rates, q.drop_last(), 1);
    assert(prev == (subs, t));
    let r = pickup_all(subs, t, rates, q, 1);
    assert(r.0 == subs.update(j as int, picked_surfel(subs[j as int], rates, 1)));
    assert(r.1 == picked_ton(t, subs[j as int], rates, 1));
    assert(r.0[j as int][i] == take_from(s, share(rate, s, 1)));
    assert(r.1[i] == cap_unit(t[i] + share(rate, s, 1)));
}

proof fn lemma_interaction_lowers(
    s0: Seq<Surfel>,
    t0: Ton,
    s1: Seq<Surfel>,
    t1: Ton,
    idxs: Seq<usize>,
    r: u32,
    m: Option<Motion>,
)
    requires
        interaction(s0, t0, s1, t1, idxs, r, m),
    ensures
        t1.p_straight <= t0.p_straight,
        t1.p_parabolic <= t0.p_parabolic,
        t1.p_flow <= t0.p_flow,
{
}

/// Motion probabilities never increase over a ton's life: along any run of
/// interactions, in which each ton state and surface state follow from the
/// ones before, every later probability is at most every earlier one.
pub proof fn lemma_probabilities_never_increase(
    tons: Seq<Ton>,
    surfaces: Seq<Seq<Surfel>>,
    idxs: Seq<Seq<usize>>,
    draws: Seq<u32>,
    motions: Seq<Option<Motion>>,
)
    requires
        tons.len() >= 1,
        surfaces.len() == tons.len(),
        idxs.len() == tons.len() - 1,
        draws.len() == tons.len() - 1,
        motions.len() == tons.len() - 1,
        forall|k: int|
            0 <= k < tons.len() - 1 ==> interaction(
                surfaces[k],
                #[trigger] tons[k],
                surfaces[k + 1],
                tons[k + 1],
                idxs[k],
                draws[k],
                motions[k],
            ),
    ensures
        forall|i: int, j: int|
            0 <= i <= j < tons.len() ==> (#[trigger] tons[j]).p_straight <= (#[trigger] tons[i]).p_straight
                && tons[j].p_parabolic <= tons[i].p_parabolic && tons[j].p_flow <= tons[i].p_flow,
    decreases tons.len(),
{
    let n = tons.len();
    if n > 1 {
        lemma_probabilities_never_increase(
            tons.drop_last(),
            surfaces.drop_last(),
            idxs.drop_last(),
            draws.drop_last(),
            motions.drop_last(),
        );
        assert(interaction(
            surfaces[n - 2],
            tons[n - 2],
            surfaces[n - 1],
            tons[n - 1],
            idxs[n - 2],
            draws[n - 2],
            motions[n - 2],
        ));
        lemma_interaction_lowers(
            surfaces[n - 2],
            tons[n - 2],
            surfaces[n - 1],
            tons[n - 1],
            idxs[n - 2],
            draws[n - 2],
            motions[n - 2],
        );
        assert forall|i: int, j: int| 0 <= i <= j < n implies (#[trigger] tons[j]).p_straight
            <= (#[trigger] tons[i]).p_straight && tons[j].p_parabolic <= tons[i].p_parabolic
            && tons[j].p_flow <= tons[i].p_flow by {
            if j < n - 1 {
                assert(tons.drop_last()[j] == tons[j]);
                assert(tons.drop_last()[i] == tons[i]);
            } else if i < n - 1 {
                assert(tons.drop_last()[n - 2] == tons[n - 2]);
                assert(tons.drop_last()[i] == tons[i]);
            }
        }
    }
}

/// The surfel at index `i` lies within `radius` of `center`.
pub open spec fn surfel_within(samples: Seq<Surfel>, i: int, center: Point3, radius: u32) -> bool {
    dist_sq(samples[i].position, center) <= radius * radius
}

fn dist_sq_exec(a: Point3, b: Point3) -> (r: u128)
    ensures
        r == dist_sq(a, b),
{
    let dx: i64 = a.x as i64 - b.x as i64;
    let dy: i64 = a.y as i64 - b.y as i64;
    let dz: i64 = a.z as i64 - b.z as i64;
    let mx: u64 = if dx < 0 { (-dx) as u64 } else { dx as u64 };
    let my: u64 = if dy < 0 { (-dy) as u64 } else { dy as u64 };
    let mz: u64 = if dz < 0 { (-dz) as u64 } else { dz as u64 };
    proof {
        assert(mx * mx <= 0x1_0000_0000_0000_0000 && mx * mx == dx * dx) by (nonlinear_arith)
            requires
                mx <= 0x1_0000_0000,
                mx == dx || mx == -dx,
        ;
        assert(my * my <= 0x1_0000_0000_0000_0000 && my * my == dy * dy) by (nonlinear_arith)
            requires
                my <= 0x1_0000_0000,
                my == dy || my == -dy,
        ;
        assert(mz * mz <= 0x1_0000_0000_0000_0000 && mz * mz == dz * dz) by (nonlinear_arith)
            requires
                mz <= 0x1_0000_0000,
                mz == dz || mz == -dz,
        ;
    }
    mx as u128 * mx as u128 + my as u128 * my as u128 + mz as u128 * mz as u128
}

impl Surface {
    /// The indices of the surfels within `radius` of `center`, borders
    /// included, in ascending order.
    pub fn find_within_sphere_indexes(&self, center: &Point3, radius: u32) -> (r: Vec<usize>)
        ensures
            forall|k: int| 0 <= k < r@.len() ==> (#[trigger] r@[k]) < self.samples@.len()
                && surfel_within(self.samples@, r@[k] as int, *center, radius),
            forall|k: int, l: int| 0 <= k < l < r@.len() ==> r@[k] < r@[l],
            forall|i: int|
                0 <= i < self.samples@.len() && surfel_within(self.samples@, i, *center, radius)
                    ==> r@.contains(i as usize),
    {
        proof {
            assert(radius * radius <= 0xffff_ffff * 0xffff_ffff) by (nonlinear_arith)
                requires
                    radius <= 0xffff_ffff,
            ;
        }
        let r2: u128 = radius as u128 * radius as u128;
        let mut found: Vec<usize> = Vec::new();
        let mut i: usize = 0;
        while i < self.samples.len()
            invariant
                i <= self.samples@.len(),
                r2 == radius * radius,
                forall|k: int| 0 <= k < found@.len() ==> (#[trigger] found@[k]) < i
                    && surfel_within(self.samples@, found@[k] as int, *center, radius),
                forall|k: int, l: int| 0 <= k < l < found@.len() ==> found@[k] < found@[l],
                forall|j: int|
                    0 <= j < i && surfel_within(self.samples@, j, *center, radius) ==> found@.contains(
                        j as usize,
                    ),
            decreases self.samples@.len() - i,
        {
            if dist_sq_exec(self.samples[i].position, *center) <= r2 {
                let ghost before = found@;
                found.push(i);
                proof {
                    assert forall|j: int|
                        0 <= j < i + 1 && surfel_within(self.samples@, j, *center, radius) implies found@.contains(
                        j as usize,
                    ) by {
                        if j < i {
                            let k = choose|k: int| 0 <= k < before.len() && before[k] == j as usize;
                            assert(found@[k] == j as usize);
                        } else {
                            assert(found@[before.len() as int] == j as usize);
                        }
                    }
                }
            }
            i = i + 1;
        }
        found
    }

    /// The index of a surfel nearest to `p`, the first of them on a tie;
    /// `None` when there are no surfels.
    pub fn nearest(&self, p: &Point3) -> (r: Option<usize>)
        ensures
            r.is_none() == (self.samples@.len() == 0),
            r.is_some() ==> r.unwrap() < self.samples@.len() && forall|i: int|
                0 <= i < self.samples@.len() ==> dist_sq(
                    self.samples@[r.unwrap() as int].position,
                    *p,
                ) <= dist_sq(#[trigger] self.samples@[i].position, *p),
    {
        if self.samples.len() == 0 {
            return None;
        }
        let mut best: usize = 0;
        let mut best_d = dist_sq_exec(self.samples[0].position, *p);
        let mut i: usize = 1;
        while i < self.samples.len()
            invariant
                1 <= i <= self.samples@.len(),
                best < self.samples@.len(),
                best_d == dist_sq(self.samples@[best as int].position, *p),
                forall|j: int|
                    0 <= j < i ==> best_d <= dist_sq(#[trigger] self.samples@[j].position, *p),
            decreases self.samples@.len() - i,
        {
            let d = dist_sq_exec(self.samples[i].position, *p);
            if d < best_d {
                best = i;
                best_d = d;
            }
            i = i + 1;
        }
        Some(best)
    }
}

} // verus!

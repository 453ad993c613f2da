use std::collections::HashMap;
use std::collections::HashSet;

use vstd::prelude::*;

use crate::events::{covers_peril, Event, Peril, Risk};
use crate::types::{year_of_day, Day, DAYS_PER_YEAR, InsuredId, InsurerId, PolicyId, SubmissionId, Year};

verus! {

broadcast use vstd::std_specs::hash::group_hash_axioms;

/// A successfully accepted policy.
#[derive(Debug)]
pub struct BoundPolicy {
    pub policy_id: PolicyId,
    pub submission_id: SubmissionId,
    pub insured_id: InsuredId,
    pub insurer_id: InsurerId,
    pub risk: Risk,
    pub premium: u64,
    pub bound_year: Year,
    /// The day the matching `PolicyExpired` event fires (= bound day + 360).
    /// A loss on or after this day is not covered, even if it is dispatched
    /// before the expiry event of the same day.
    pub expire_day: Day,
}

/// Key of the per-(policy, year) remaining insurable value table.
pub open spec fn asset_key(policy: u64, year: u32) -> u128 {
    ((policy as int) * 0x1_0000_0000 + (year as int)) as u128
}

proof fn lemma_asset_key_injective(a: u64, b: u32, c: u64, d: u32)
    requires
        asset_key(a, b) == asset_key(c, d),
    ensures
        a == c,
        b == d,
{
    assert((a as int) * 0x1_0000_0000 + (b as int) == (c as int) * 0x1_0000_0000 + (d as int));
    assert(a == c && b == d) by (nonlinear_arith)
        requires
            (a as int) * 0x1_0000_0000 + (b as int) == (c as int) * 0x1_0000_0000 + (d as int),
            0 <= b < 0x1_0000_0000,
            0 <= d < 0x1_0000_0000,
    ;
}

fn make_asset_key(policy: u64, year: u32) -> (k: u128)
    ensures
        k == asset_key(policy, year),
{
    (policy as u128) * 0x1_0000_0000u128 + (year as u128)
}

/// The abstract state of the market coordinator.
pub struct MarketView {
    /// Identifier the next accepted quote will receive.
    pub next_policy_id: u64,
    /// Policies created by an accepted quote but not yet bound (not loss-eligible).
    pub pending: Map<u64, BoundPolicy>,
    /// Bound policies, eligible for loss routing.
    pub policies: Map<u64, BoundPolicy>,
    /// Insured id to the policy id currently covering it.
    pub active: Map<u64, u64>,
    /// Remaining insurable asset value per (policy, year).
    pub remaining: Map<(u64, u32), u64>,
    /// The value each (policy, year) started from (the policy's sum insured).
    pub cap: Map<(u64, u32), u64>,
    /// The sum insured each policy was written for, by id, kept after it expires.
    pub sums: Map<u64, u64>,
    /// Total of the claims routed so far per (policy, year).
    pub claimed: Map<(u64, u32), nat>,
    /// Registered insureds in registration order: (insured, territory, sum insured).
    pub registry: Seq<(u64, Seq<char>, u64)>,
}

/// The market coordinator: owns the policy lifecycle (pending, bound, expired),
/// the per-year cap on insured losses, and the registry of insureds used to
/// find who a catastrophe strikes. It makes no pricing decisions.
pub struct Market {
    next_policy_id: u64,
    pending_policies: HashMap<u64, BoundPolicy>,
    policies: HashMap<u64, BoundPolicy>,
    insured_active_policies: HashMap<u64, u64>,
    remaining_asset_value: HashMap<u128, u64>,
    registry: Vec<(InsuredId, String, u64)>,
    registered: HashSet<u64>,
    cap: Ghost<Map<(u64, u32), u64>>,
    claimed: Ghost<Map<(u64, u32), nat>>,
    sums: Ghost<Map<u64, u64>>,
}

/// Each insured appears once in the registry, and `ids` holds exactly the registered ids.
spec fn registry_consistent(reg: Seq<(InsuredId, String, u64)>, ids: Set<u64>) -> bool {
    &&& forall|j: int, l: int| 0 <= j < l < reg.len() ==> #[trigger] reg[j].0 != #[trigger] reg[l].0
    &&& forall|i: u64| #[trigger]
        ids.contains(i) <==> exists|j: int| 0 <= j < reg.len() && #[trigger] reg[j].0.0 == i
}

/// Whether `reg` registers insured `id`.
pub open spec fn registry_has(reg: Seq<(u64, Seq<char>, u64)>, id: u64) -> bool {
    exists|j: int| 0 <= j < reg.len() && #[trigger] reg[j].0 == id
}

/// The insureds of `reg` located in `territory`, in registration order, with their sums insured.
pub open spec fn registered_in(reg: Seq<(u64, Seq<char>, u64)>, territory: Seq<char>) -> Seq<
    (InsuredId, u64),
>
    decreases reg.len(),
{
    if reg.len() == 0 {
        Seq::empty()
    } else {
        let rest = registered_in(reg.drop_last(), territory);
        let e = reg.last();
        if e.1 == territory {
            rest.push((InsuredId(e.0), e.2))
        } else {
            rest
        }
    }
}

/// The `AssetDamage` events of a catastrophe on `day`: one per struck insured of
/// `losses`, in order, each with its loss (a loss of zero included).
pub open spec fn damage_events(day: Day, peril: Peril, losses: Seq<(InsuredId, u64)>) -> Seq<(Day, Event)> {
    losses.map_values(|e: (InsuredId, u64)| (day, Event::AssetDamage { insured_id: e.0, peril, ground_up_loss: e.1 }))
}

impl MarketView {
    /// The policy that covers a loss to `insured` of `peril` on `day`, if any:
    /// the insured's active policy, not yet expired, listing the peril.
    pub open spec fn covering_policy(self, day: Day, insured: InsuredId, peril: Peril) -> Option<
        u64,
    > {
        if self.active.contains_key(insured.0) && self.policies.contains_key(
            self.active[insured.0],
        ) {
            let p = self.active[insured.0];
            let pol = self.policies[p];
            if day.0 < pol.expire_day.0 && pol.risk.perils_covered@.contains(peril) {
                Some(p)
            } else {
                None
            }
        } else {
            None
        }
    }

    /// Remaining insurable value of policy `p` in `year` before any loss of that year
    /// defaults to the policy's sum insured.
    pub open spec fn remaining_or_full(self, p: u64, year: u32) -> u64 {
        if self.remaining.contains_key((p, year)) {
            self.remaining[(p, year)]
        } else {
            self.policies[p].risk.sum_insured
        }
    }
}

impl View for Market {
    type V = MarketView;

    closed spec fn view(&self) -> MarketView {
        MarketView {
            next_policy_id: self.next_policy_id,
            pending: self.pending_policies@,
            policies: self.policies@,
            active: self.insured_active_policies@,
            remaining: Map::new(
                |k: (u64, u32)| self.remaining_asset_value@.contains_key(asset_key(k.0, k.1)),
                |k: (u64, u32)| self.remaining_asset_value@[asset_key(k.0, k.1)],
            ),
            cap: self.cap@,
            claimed: self.claimed@,
            sums: self.sums@,
            registry: self.registry@.map_values(
                |e: (InsuredId, String, u64)| (e.0.0, e.1@, e.2),
            ),
        }
    }
}

/// The market after registering an insured: see `Market::register_insured`.
pub open spec fn registered(old: MarketView, new: MarketView, insured_id: InsuredId, territory: Seq<char>, sum_insured: u64) -> bool {
    &&& new.registry == if registry_has(old.registry, insured_id.0) {
        old.registry
    } else {
        old.registry.push((insured_id.0, territory, sum_insured))
    }
    &&& new.next_policy_id == old.next_policy_id
    &&& new.pending == old.pending
    &&& new.policies == old.policies
    &&& new.active == old.active
    &&& new.remaining == old.remaining
    &&& new.cap == old.cap
    &&& new.sums == old.sums
    &&& new.claimed == old.claimed
}

/// The market after an accepted quote, with the events it schedules: see `Market::on_quote_accepted`.
pub open spec fn accepted(old: MarketView, new: MarketView, day: Day, submission_id: SubmissionId, insured_id: InsuredId, insurer_id: InsurerId, premium: u64, risk: Risk, year: Year, r: Seq<(Day, Event)>) -> bool {
    &&& ({
        let pid = old.next_policy_id;
        &&& new.next_policy_id == pid + 1
        &&& new.pending == old.pending.insert(
            pid,
            BoundPolicy {
                policy_id: PolicyId(pid),
                submission_id,
                insured_id,
                insurer_id,
                risk,
                premium,
                bound_year: year,
                expire_day: Day((day.0 + 361) as u64),
            },
        )
        &&& r =~= seq![
            (
                Day((day.0 + 1) as u64),
                Event::PolicyBound {
                    policy_id: PolicyId(pid),
                    submission_id,
                    insured_id,
                    insurer_id,
                    premium,
                    sum_insured: risk.sum_insured,
                    total_cat_exposure: 0,
                },
            ),
            (Day((day.0 + 361) as u64), Event::PolicyExpired { policy_id: PolicyId(pid) }),
        ]
    })
    &&& new.policies == old.policies
    &&& new.active == old.active
    &&& new.remaining == old.remaining
    &&& new.cap == old.cap
    &&& new.sums == old.sums.insert(old.next_policy_id, risk.sum_insured)
    &&& new.claimed == old.claimed
    &&& new.registry == old.registry
}

/// The market after a `PolicyBound` fired: see `Market::on_policy_bound`.
pub open spec fn activated(old: MarketView, new: MarketView, policy_id: PolicyId) -> bool {
    &&& old.pending.contains_key(policy_id.0) ==> {
        let pol = old.pending[policy_id.0];
        &&& new.pending =~= old.pending.remove(policy_id.0)
        &&& new.policies =~= old.policies.insert(policy_id.0, pol)
        &&& new.active =~= old.active.insert(pol.insured_id.0, policy_id.0)
    }
    &&& !old.pending.contains_key(policy_id.0) ==> {
        &&& new.pending =~= old.pending
        &&& new.policies =~= old.policies
        &&& new.active =~= old.active
    }
    &&& new.next_policy_id == old.next_policy_id
    &&& new.remaining == old.remaining
    &&& new.cap == old.cap
    &&& new.sums == old.sums
    &&& new.claimed == old.claimed
    &&& new.registry == old.registry
}

/// The market after a `PolicyExpired` fired: see `Market::on_policy_expired`.
pub open spec fn expired(old: MarketView, new: MarketView, policy_id: PolicyId) -> bool {
    &&& new.policies == old.policies.remove(policy_id.0)
    &&& new.active == Map::new(
        |i: u64| old.active.contains_key(i) && old.active[i] != policy_id.0,
        |i: u64| old.active[i],
    )
    &&& new.next_policy_id == old.next_policy_id
    &&& new.pending == old.pending
    &&& new.remaining == old.remaining
    &&& new.cap == old.cap
    &&& new.sums == old.sums
    &&& new.claimed == old.claimed
    &&& new.registry == old.registry
}

/// The market after routing an asset damage, with the claim it settles: see `Market::on_asset_damage`.
pub open spec fn damaged(old: MarketView, new: MarketView, day: Day, insured_id: InsuredId, ground_up_loss: u64, peril: Peril, r: Seq<(Day, Event)>) -> bool {
    &&& old.covering_policy(day, insured_id, peril) is None ==> r.len() == 0
        && new == old
    &&& old.covering_policy(day, insured_id, peril) matches Some(p) ==> {
        let year = year_of_day(day.0) as u32;
        let k = (p, year);
        let rem = old.remaining_or_full(p, year);
        let amount = if ground_up_loss < rem { ground_up_loss } else { rem };
        let pol = old.policies[p];
        &&& new.remaining == old.remaining.insert(k, (rem - amount) as u64)
        &&& new.claimed == old.claimed.insert(
            k,
            if old.claimed.contains_key(k) {
                (old.claimed[k] + amount) as nat
            } else {
                amount as nat
            },
        )
        &&& r == if amount == 0 {
            Seq::<(Day, Event)>::empty()
        } else {
            seq![
                (
                    day,
                    Event::ClaimSettled {
                        policy_id: PolicyId(p),
                        insurer_id: pol.insurer_id,
                        amount,
                        peril,
                        remaining_capital: 0,
                    },
                ),
            ]
        }
        &&& new.cap.contains_key(k)
        &&& new.cap[k] == pol.risk.sum_insured
        &&& new.sums == old.sums
        &&& new.next_policy_id == old.next_policy_id
        &&& new.pending == old.pending
        &&& new.policies == old.policies
        &&& new.active == old.active
        &&& new.registry == old.registry
    }
}

impl Market {
    /// The market's internal consistency: policy ids are fresh and unique, every
    /// active entry points at a bound policy of that insured, each (policy, year)
    /// loss cap accounts for every claim routed against it, and the registry
    /// holds each insured once.
    pub closed spec fn wf(&self) -> bool {
        &&& self.wf_policies()
        &&& self.wf_losses()
        &&& self.wf_registry()
        &&& self.wf_terms()
    }

    closed spec fn wf_terms(&self) -> bool {
        &&& forall|p: u64| #[trigger] self.sums@.contains_key(p) <==> p < self.next_policy_id
        &&& forall|p: u64| #[trigger]
            self.pending_policies@.contains_key(p) ==> self.pending_policies@[p].risk.sum_insured == self.sums@[p]
        &&& forall|p: u64| #[trigger]
            self.policies@.contains_key(p) ==> self.policies@[p].risk.sum_insured == self.sums@[p]
        &&& forall|k: (u64, u32)| #[trigger] self.cap@.contains_key(k) ==> self.cap@[k] == self.sums@[k.0]
    }

    closed spec fn wf_policies(&self) -> bool {
        &&& forall|p: u64| #[trigger]
            self.pending_policies@.contains_key(p) ==> p < self.next_policy_id
                && self.pending_policies@[p].policy_id.0 == p && !self.policies@.contains_key(p)
        &&& forall|p: u64| #[trigger]
            self.policies@.contains_key(p) ==> p < self.next_policy_id
                && self.policies@[p].policy_id.0 == p
        &&& forall|i: u64| #[trigger]
            self.insured_active_policies@.contains_key(i) ==> self.policies@.contains_key(
                self.insured_active_policies@[i],
            ) && self.policies@[self.insured_active_policies@[i]].insured_id.0 == i
    }

    closed spec fn wf_losses(&self) -> bool {
        &&& forall|p: u64, y: u32| #[trigger]
            self.remaining_asset_value@.contains_key(asset_key(p, y)) ==> {
                &&& self.cap@.contains_key((p, y))
                &&& self.claimed@.contains_key((p, y))
                &&& self.claimed@[(p, y)] + self.remaining_asset_value@[asset_key(p, y)]
                    == self.cap@[(p, y)]
                &&& p < self.next_policy_id
                &&& !self.pending_policies@.contains_key(p)
                &&& self.policies@.contains_key(p) ==> self.cap@[(p, y)]
                    == self.policies@[p].risk.sum_insured
            }
        &&& forall|k: (u64, u32)| #[trigger]
            self.cap@.contains_key(k) ==> self.remaining_asset_value@.contains_key(
                asset_key(k.0, k.1),
            )
        &&& forall|k: (u64, u32)| #[trigger]
            self.claimed@.contains_key(k) ==> self.remaining_asset_value@.contains_key(
                asset_key(k.0, k.1),
            )
    }

    closed spec fn wf_registry(&self) -> bool {
        registry_consistent(self.registry@, self.registered@)
    }

    pub fn new() -> (m: Market)
        ensures
            m.wf(),
            m@.next_policy_id == 0,
            m@.pending.is_empty(),
            m@.policies.is_empty(),
            m@.active.is_empty(),
            m@.remaining.is_empty(),
            m@.claimed.is_empty(),
            m@.registry.len() == 0,
    {
        let m = Market {
            next_policy_id: 0,
            pending_policies: HashMap::new(),
            policies: HashMap::new(),
            insured_active_policies: HashMap::new(),
            remaining_asset_value: HashMap::new(),
            registry: Vec::new(),
            registered: HashSet::new(),
            cap: Ghost(Map::empty()),
            claimed: Ghost(Map::empty()),
            sums: Ghost(Map::empty()),
        };
        assert(m@.remaining =~= Map::empty());
        assert(m@.registry =~= Seq::empty());
        m
    }

    /// Register an insured in the market registry (called at `CoverageRequested` time).
    /// Idempotent: only the first call for each insured takes effect.
    pub fn register_insured(&mut self, insured_id: InsuredId, territory: &str, sum_insured: u64)
        requires
            old(self).wf(),
        ensures
            final(self).wf(),
            registered(old(self)@, final(self)@, insured_id, territory@, sum_insured),
    {
        let ghost old_reg = self.registry@;
        let ghost old_view_reg = self@.registry;
        if !self.registered.contains(&insured_id.0) {
            self.registered.insert(insured_id.0);
            self.registry.push((insured_id, territory.to_owned(), sum_insured));
            assert(self@.registry =~= old_view_reg.push((insured_id.0, territory@, sum_insured)));
            assert(!registry_has(old_view_reg, insured_id.0)) by {
                if registry_has(old_view_reg, insured_id.0) {
                    let j = choose|j: int| 0 <= j < old_view_reg.len() && #[trigger] old_view_reg[j].0 == insured_id.0;
                    assert(old_reg[j].0.0 == insured_id.0);
                }
            }
            assert forall|i: u64| #[trigger] self.registered@.contains(i) <==> exists|j: int|
                0 <= j < self.registry@.len() && #[trigger] self.registry@[j].0.0 == i by {
                if i == insured_id.0 {
                    assert(self.registry@[old_reg.len() as int].0.0 == i);
                } else {
                    if exists|j: int| 0 <= j < self.registry@.len() && #[trigger] self.registry@[j].0.0 == i {
                        let j = choose|j: int| 0 <= j < self.registry@.len() && #[trigger] self.registry@[j].0.0 == i;
                        assert(old_reg[j].0.0 == i);
                    }
                    if self.registered@.contains(i) {
                        let j = choose|j: int| 0 <= j < old_reg.len() && #[trigger] old_reg[j].0.0 == i;
                        assert(self.registry@[j].0.0 == i);
                    }
                }
            }
        } else {
            assert(registry_has(old_view_reg, insured_id.0)) by {
                let j = choose|j: int| 0 <= j < old_reg.len() && #[trigger] old_reg[j].0.0 == insured_id.0;
                assert(old_view_reg[j].0 == insured_id.0);
            }
            assert(self@.registry =~= old_view_reg);
        }
    }

    /// The insureds registered in `territory`, in registration order, with their sums insured.
    /// These are the insureds a catastrophe striking `territory` damages.
    pub fn insureds_in_territory(&self, territory: &str) -> (r: Vec<(InsuredId, u64)>)
        ensures
            r@ == registered_in(self@.registry, territory@),
    {
        let t = territory.to_owned();
        let mut r: Vec<(InsuredId, u64)> = Vec::new();
        let mut i: usize = 0;
        while i < self.registry.len()
            invariant
                i <= self.registry@.len(),
                t@ == territory@,
                r@ == registered_in(self@.registry.take(i as int), territory@),
            decreases self.registry@.len() - i,
        {
            let ghost reg = self@.registry;
            assert(reg.take(i as int + 1).drop_last() =~= reg.take(i as int));
            let e = &self.registry[i];
            if e.1 == t {
                r.push((e.0, e.2));
            }
            i = i + 1;
        }
        assert(self@.registry.take(i as int) =~= self@.registry);
        r
    }

    /// Insured has accepted a quote. Create the policy record (not yet loss-eligible) and
    /// schedule `PolicyBound` at `day + 1` and `PolicyExpired` at `day + 361`.
    pub fn on_quote_accepted(
        &mut self,
        day: Day,
        submission_id: SubmissionId,
        insured_id: InsuredId,
        insurer_id: InsurerId,
        premium: u64,
        risk: Risk,
        year: Year,
    ) -> (r: Vec<(Day, Event)>)
        requires
            old(self).wf(),
            day.0 + 361 <= u64::MAX,
            old(self)@.next_policy_id < u64::MAX,
        ensures
            final(self).wf(),
            accepted(old(self)@, final(self)@, day, submission_id, insured_id, insurer_id, premium, risk, year, r@),
    {
        let policy_id = PolicyId(self.next_policy_id);
        self.next_policy_id = self.next_policy_id + 1;

        let bind_day = day.offset(1);
        let expire_day = day.offset(361);
        let sum_insured = risk.sum_insured;
        proof {
            self.sums@ = self.sums@.insert(policy_id.0, sum_insured);
        }

        self.pending_policies.insert(
            policy_id.0,
            BoundPolicy {
                policy_id,
                submission_id,
                insured_id,
                insurer_id,
                risk,
                premium,
                bound_year: year,
                expire_day,
            },
        );
        let mut r: Vec<(Day, Event)> = Vec::new();
        r.push(
            (
                bind_day,
                Event::PolicyBound {
                    policy_id,
                    submission_id,
                    insured_id,
                    insurer_id,
                    premium,
                    sum_insured,
                    total_cat_exposure: 0,
                },
            ),
        );
        r.push((expire_day, Event::PolicyExpired { policy_id }));
        r
    }

    /// `PolicyBound` has fired: activate the pending policy so it is eligible for loss
    /// routing and becomes its insured's active policy. Unknown ids are ignored.
    pub fn on_policy_bound(&mut self, policy_id: PolicyId)
        requires
            old(self).wf(),
        ensures
            final(self).wf(),
            activated(old(self)@, final(self)@, policy_id),
            !old(self)@.pending.contains_key(policy_id.0) ==> final(self)@ == old(self)@,
            policy_id.0 >= old(self)@.next_policy_id ==> final(self)@ == old(self)@,
    {
        let ghost old_v = self@;
        let removed = self.pending_policies.remove(&policy_id.0);
        match removed {
            Some(policy) => {
                let insured = policy.insured_id.0;
                self.insured_active_policies.insert(insured, policy_id.0);
                self.policies.insert(policy_id.0, policy);
                assert forall|k: (u64, u32)| #[trigger]
                    self@.remaining.contains_key(k) && self@.policies.contains_key(k.0) implies self@.cap[k]
                    == self@.policies[k.0].risk.sum_insured by {
                    assert(old_v.remaining.contains_key(k));
                }
            },
            None => {
                assert(self@.pending =~= old_v.pending);
                assert(self@ == old_v);
            },
        }
    }

    /// Insured rejected the quote. No market state changes; renewal is scheduled by the
    /// simulation dispatcher.
    pub fn on_quote_rejected(&mut self, _submission_id: SubmissionId)
        ensures
            final(self)@ == old(self)@,
            old(self).wf() ==> final(self).wf(),
    {
    }

    /// Remove a policy when its `PolicyExpired` event fires; no insured keeps it as its
    /// active policy afterwards. Unknown ids are ignored.
    pub fn on_policy_expired(&mut self, policy_id: PolicyId)
        requires
            old(self).wf(),
        ensures
            final(self).wf(),
            expired(old(self)@, final(self)@, policy_id),
            !old(self)@.policies.contains_key(policy_id.0) ==> final(self)@ == old(self)@,
    {
        let ghost old_v = self@;
        let removed = self.policies.remove(&policy_id.0);
        match removed {
            Some(policy) => {
                let insured = policy.insured_id.0;
                let cur = self.insured_active_policies.get(&insured);
                let hit = match cur {
                    Some(p) => *p == policy_id.0,
                    None => false,
                };
                if hit {
                    self.insured_active_policies.remove(&insured);
                }
                assert(self@.active =~= Map::new(
                    |i: u64| old_v.active.contains_key(i) && old_v.active[i] != policy_id.0,
                    |i: u64| old_v.active[i],
                ));
            },
            None => {
                assert forall|i: u64| old_v.active.contains_key(i) implies old_v.active[i]
                    != policy_id.0 by {
                    assert(old_v.policies.contains_key(old_v.active[i]));
                }
                assert(self@.active =~= Map::new(
                    |i: u64| old_v.active.contains_key(i) && old_v.active[i] != policy_id.0,
                    |i: u64| old_v.active[i],
                ));
                assert(self@.policies =~= old_v.policies.remove(policy_id.0));
                assert(self@.active =~= old_v.active);
                assert(self@.policies =~= old_v.policies);
                assert(self@ == old_v);
            },
        }
    }

    /// An `AssetDamage` event has fired for an insured. Routes to `ClaimSettled` only when
    /// the insured holds an active, unexpired policy covering the peril. The claim is the
    /// loss capped by what remains of the policy's sum insured for the loss's year.
    pub fn on_asset_damage(&mut self, day: Day, insured_id: InsuredId, ground_up_loss: u64, peril: Peril) -> (r: Vec<
        (Day, Event),
    >)
        requires
            old(self).wf(),
            day.0 / 360 < u32::MAX,
        ensures
            final(self).wf(),
            damaged(old(self)@, final(self)@, day, insured_id, ground_up_loss, peril, r@),
    {
        let ghost old_v = self@;
        let policy_id = match self.insured_active_policies.get(&insured_id.0) {
            Some(p) => *p,
            None => {
                return Vec::new();
            },
        };
        let policy = match self.policies.get(&policy_id) {
            Some(p) => p,
            None => {
                return Vec::new();
            },
        };
        if day.0 >= policy.expire_day.0 {
            return Vec::new();
        }
        if !covers_peril(&policy.risk.perils_covered, peril) {
            return Vec::new();
        }
        let insurer_id = policy.insurer_id;
        let sum_insured = policy.risk.sum_insured;

        let year = day.year();
        let key = make_asset_key(policy_id, year.0);
        let remaining: u64 = match self.remaining_asset_value.get(&key) {
            Some(v) => *v,
            None => sum_insured,
        };
        proof {
            if self.remaining_asset_value@.contains_key(key) {
                assert(old_v.remaining.contains_key((policy_id, year.0)));
            } else {
                assert(!old_v.remaining.contains_key((policy_id, year.0)));
            }
        }
        let effective_gul = if ground_up_loss < remaining {
            ground_up_loss
        } else {
            remaining
        };
        self.remaining_asset_value.insert(key, remaining - effective_gul);
        let ghost k = (policy_id, year.0);
        proof {
            let prev: nat = if self.claimed@.contains_key(k) {
                self.claimed@[k]
            } else {
                0
            };
            self.claimed@ = self.claimed@.insert(k, (prev + effective_gul) as nat);
            self.cap@ = self.cap@.insert(k, sum_insured);
            assert(self@.remaining =~= old_v.remaining.insert(k, (remaining - effective_gul) as u64))
                by {
                assert forall|k2: (u64, u32)| #[trigger] self@.remaining.contains_key(k2) == old_v.remaining.insert(k, (remaining - effective_gul) as u64).contains_key(k2) by {
                    if asset_key(k2.0, k2.1) == key {
                        lemma_asset_key_injective(k2.0, k2.1, policy_id, year.0);
                    }
                }
                assert forall|k2: (u64, u32)| #[trigger] self@.remaining.contains_key(k2) implies self@.remaining[k2] == old_v.remaining.insert(k, (remaining - effective_gul) as u64)[k2] by {
                    if asset_key(k2.0, k2.1) == key {
                        lemma_asset_key_injective(k2.0, k2.1, policy_id, year.0);
                    }
                }
            }
        }
        let mut r: Vec<(Day, Event)> = Vec::new();
        if effective_gul == 0 {
            return r;
        }
        r.push(
            (
                day,
                Event::ClaimSettled {
                    policy_id: PolicyId(policy_id),
                    insurer_id,
                    amount: effective_gul,
                    peril,
                    remaining_capital: 0,
                },
            ),
        );
        r
    }

    /// Whether a policy has been created by an accepted quote but not yet bound.
    pub fn is_pending(&self, policy_id: PolicyId) -> (b: bool)
        ensures
            b == self@.pending.contains_key(policy_id.0),
    {
        self.pending_policies.contains_key(&policy_id.0)
    }

    /// Whether a policy is bound and in force (eligible for loss routing).
    pub fn is_in_force(&self, policy_id: PolicyId) -> (b: bool)
        ensures
            b == self@.policies.contains_key(policy_id.0),
    {
        self.policies.contains_key(&policy_id.0)
    }

    /// The bound policy with this id, if in force.
    pub fn policy(&self, policy_id: PolicyId) -> (r: Option<&BoundPolicy>)
        ensures
            r matches Some(p) ==> self@.policies.contains_key(policy_id.0) && *p == self@.policies[policy_id.0],
            r is None ==> !self@.policies.contains_key(policy_id.0),
    {
        self.policies.get(&policy_id.0)
    }

    /// The id the next accepted quote's policy will get.
    pub fn next_policy_id(&self) -> (r: PolicyId)
        ensures
            r.0 == self@.next_policy_id,
    {
        PolicyId(self.next_policy_id)
    }

    /// The policy currently covering `insured_id`, if any.
    pub fn active_policy_of(&self, insured_id: InsuredId) -> (r: Option<PolicyId>)
        ensures
            r matches Some(p) ==> self@.active.contains_key(insured_id.0) && p.0 == self@.active[insured_id.0],
            r is None ==> !self@.active.contains_key(insured_id.0),
    {
        match self.insured_active_policies.get(&insured_id.0) {
            Some(p) => Some(PolicyId(*p)),
            None => None,
        }
    }

    /// Number of bound policies in force.
    pub fn policy_count(&self) -> (n: usize)
        ensures
            n == self@.policies.len(),
    {
        self.policies.len()
    }
}

impl Default for Market {
    fn default() -> (m: Market)
        ensures
            m.wf(),
            m@.pending.is_empty(),
            m@.policies.is_empty(),
    {
        Market::new()
    }
}

/// The `AssetDamage` events a catastrophe produces, given the ground-up loss of each
/// struck insured (the shared damage fraction applied to its sum insured): one event per
/// struck insured, a loss of zero included, in the given order, all on `day`.
pub fn asset_damage_events(day: Day, peril: Peril, losses: Vec<(InsuredId, u64)>) -> (r: Vec<
    (Day, Event),
>)
    ensures
        r@ == damage_events(day, peril, losses@),
{
    let mut r: Vec<(Day, Event)> = Vec::new();
    let mut i: usize = 0;
    while i < losses.len()
        invariant
            i <= losses@.len(),
            r@ == damage_events(day, peril, losses@.take(i as int)),
        decreases losses@.len() - i,
    {
        let (insured_id, gul) = losses[i];
        r.push((day, Event::AssetDamage { insured_id, peril, ground_up_loss: gul }));
        proof {
            assert(damage_events(day, peril, losses@.take(i as int + 1)) =~= damage_events(day, peril, losses@.take(i as int)).push(
                (day, Event::AssetDamage { insured_id, peril, ground_up_loss: gul }),
            ));
        }
        i = i + 1;
    }
    proof {
        assert(losses@.take(i as int) =~= losses@);
    }
    r
}

/// What the `ClaimSettled` events of `r` pay against policy `p` for losses of year `y`.
pub open spec fn settled_against(r: Seq<(Day, Event)>, p: u64, y: u32) -> nat
    decreases r.len(),
{
    if r.len() == 0 {
        0
    } else {
        settled_against(r.drop_last(), p, y) + match r.last().1 {
            Event::ClaimSettled { policy_id, amount, .. } => if policy_id.0 == p && year_of_day(r.last().0.0) as u32
                == y {
                amount as nat
            } else {
                0nat
            },
            _ => 0nat,
        }
    }
}

/// What all the calls' answers `outs` pay against policy `p` for losses of year `y`.
pub open spec fn settled_over(outs: Seq<Seq<(Day, Event)>>, p: u64, y: u32) -> nat
    decreases outs.len(),
{
    if outs.len() == 0 {
        0
    } else {
        settled_over(outs.drop_last(), p, y) + settled_against(outs.last(), p, y)
    }
}

/// The claims routed so far against policy `p` for year `y` (none yet: zero).
pub open spec fn claimed_of(m: MarketView, p: u64, y: u32) -> nat {
    if m.claimed.contains_key((p, y)) {
        m.claimed[(p, y)]
    } else {
        0
    }
}

/// The facts of a well-formed market that concern claims: every policy id issued has
/// the sum it was written for, and the claims routed against a policy in a year never
/// exceed that sum.
pub open spec fn claims_consistent(m: MarketView) -> bool {
    &&& forall|q: u64| #[trigger] m.sums.contains_key(q) <==> q < m.next_policy_id
    &&& forall|k: (u64, u32)| #[trigger]
        m.claimed.contains_key(k) ==> m.sums.contains_key(k.0) && m.claimed[k] <= m.sums[k.0]
}

/// One call on a market and what it answered: either a routed asset damage (see
/// `damaged`), or a call that settles no claim, leaves the claims totals alone and keeps
/// the sum of every policy already written.
pub open spec fn market_call(old: MarketView, new: MarketView, r: Seq<(Day, Event)>) -> bool {
    ||| exists|day: Day, insured: InsuredId, loss: u64, peril: Peril|
        day.0 / DAYS_PER_YEAR < u32::MAX && #[trigger] damaged(old, new, day, insured, loss, peril, r)
    ||| {
        &&& new.claimed == old.claimed
        &&& forall|i: int| 0 <= i < r.len() ==> !((#[trigger] r[i]).1 is ClaimSettled)
        &&& forall|q: u64| #[trigger] old.sums.contains_key(q) ==> new.sums.contains_key(q) && new.sums[q] == old.sums[q]
    }
}

/// A well-formed market's claims facts (see `claims_consistent`).
pub proof fn lemma_claims_consistent(m: &Market)
    requires
        m.wf(),
    ensures
        claims_consistent(m@),
{
    assert forall|k: (u64, u32)| #[trigger] m@.claimed.contains_key(k) implies m@.sums.contains_key(k.0)
        && m@.claimed[k] <= m@.sums[k.0] by {
        assert(m.remaining_asset_value@.contains_key(asset_key(k.0, k.1)));
    }
}

proof fn lemma_settles_nothing(r: Seq<(Day, Event)>, p: u64, y: u32)
    requires
        forall|i: int| 0 <= i < r.len() ==> !((#[trigger] r[i]).1 is ClaimSettled),
    ensures
        settled_against(r, p, y) == 0,
    decreases r.len(),
{
    if r.len() > 0 {
        assert(!(r[r.len() - 1].1 is ClaimSettled));
        lemma_settles_nothing(r.drop_last(), p, y);
    }
}

/// The annual cap holds over any run of calls on a market: along calls `views[i]` to
/// `views[i + 1]` answering `outs[i]`, the claims paid against policy `p` for year `y`
/// add up to exactly what the market has routed against it, each settled claim is
/// positive and at most its loss, the sum the policy was written for never changes, and
/// the total never exceeds that sum.
pub proof fn lemma_claims_over_calls_capped(
    views: Seq<MarketView>,
    outs: Seq<Seq<(Day, Event)>>,
    p: u64,
    y: u32,
)
    requires
        views.len() == outs.len() + 1,
        forall|i: int| 0 <= i < views.len() ==> claims_consistent(#[trigger] views[i]),
        forall|i: int| 0 <= i < outs.len() ==> market_call(#[trigger] views[i], views[i + 1], outs[i]),
    ensures
        claimed_of(views.last(), p, y) == claimed_of(views[0], p, y) + settled_over(outs, p, y),
        views[0].sums.contains_key(p) ==> views.last().sums.contains_key(p) && views.last().sums[p] == views[0].sums[p],
        claimed_of(views[0], p, y) + settled_over(outs, p, y) > 0 ==> views.last().sums.contains_key(p)
            && claimed_of(views[0], p, y) + settled_over(outs, p, y) <= views.last().sums[p],
    decreases outs.len(),
{
    let n = outs.len();
    if n > 0 {
        let vs = views.drop_last();
        let os = outs.drop_last();
        assert forall|i: int| 0 <= i < vs.len() implies claims_consistent(#[trigger] vs[i]) by {
            assert(vs[i] == views[i]);
        }
        assert forall|i: int| 0 <= i < os.len() implies market_call(#[trigger] vs[i], vs[i + 1], os[i]) by {
            assert(vs[i] == views[i] && vs[i + 1] == views[i + 1] && os[i] == outs[i]);
        }
        lemma_claims_over_calls_capped(vs, os, p, y);
        let old = views[n - 1];
        let new = views[n as int];
        let r = outs[n - 1];
        assert(market_call(old, new, r));
        assert(vs.last() == old);
        if exists|day: Day, insured: InsuredId, loss: u64, peril: Peril|
            day.0 / DAYS_PER_YEAR < u32::MAX && #[trigger] damaged(old, new, day, insured, loss, peril, r) {
            let (day, insured, loss, peril) = choose|day: Day, insured: InsuredId, loss: u64, peril: Peril|
                day.0 / DAYS_PER_YEAR < u32::MAX && #[trigger] damaged(old, new, day, insured, loss, peril, r);
            match old.covering_policy(day, insured, peril) {
                None => {
                    assert(r.len() == 0);
                },
                Some(q) => {
                    let yy = year_of_day(day.0) as u32;
                    if r.len() == 0 {
                        assert(settled_against(r, p, y) == 0);
                    } else {
                        assert(r.drop_last().len() == 0);
                        assert(settled_against(r.drop_last(), p, y) == 0);
                    }
                    assert(claimed_of(new, p, y) == claimed_of(old, p, y) + settled_against(r, p, y));
                },
            }
        } else {
            lemma_settles_nothing(r, p, y);
        }
        assert(claimed_of(new, p, y) == claimed_of(old, p, y) + settled_against(r, p, y));
        assert(settled_over(outs, p, y) == settled_over(os, p, y) + settled_against(r, p, y));
        if claimed_of(new, p, y) > 0 {
            assert(new.claimed.contains_key((p, y)));
        }
    } else {
        if claimed_of(views[0], p, y) > 0 {
            assert(views[0].claimed.contains_key((p, y)));
        }
    }
}

/// Only a bound policy answers for a loss: a policy accepted but not yet bound covers
/// nothing, and once it has expired it covers nothing again.
pub proof fn lemma_only_bound_policies_cover(m: &Market, day: Day, insured: InsuredId, peril: Peril)
    requires
        m.wf(),
    ensures
        m@.covering_policy(day, insured, peril) matches Some(p) ==> m@.policies.contains_key(p)
            && !m@.pending.contains_key(p) && m@.policies[p].insured_id == insured && day.0
            < m@.policies[p].expire_day.0,
{
}

/// An expired policy never settles a claim: after its `PolicyExpired`, no loss of any
/// insured, on any day, of any peril is routed to it.
pub proof fn lemma_expired_policy_settles_nothing(
    old: MarketView,
    new: MarketView,
    policy_id: PolicyId,
    day: Day,
    insured: InsuredId,
    peril: Peril,
)
    requires
        expired(old, new, policy_id),
    ensures
        new.covering_policy(day, insured, peril) != Some(policy_id.0),
{
}

/// Policy ids are never reused: every pending or bound policy carries its own id, lies
/// below the id the next accepted quote takes (see `accepted`, which then advances it),
/// and no policy is pending and bound at once.
pub proof fn lemma_policy_ids_fresh(m: &Market)
    requires
        m.wf(),
    ensures
        forall|p: u64| #[trigger] m@.pending.contains_key(p) ==> p < m@.next_policy_id && m@.pending[p].policy_id.0 == p
            && !m@.policies.contains_key(p),
        forall|p: u64| #[trigger] m@.policies.contains_key(p) ==> p < m@.next_policy_id && m@.policies[p].policy_id.0 == p,
{
}

/// Each policy-year's claims never exceed the policy's sum insured: the total of the
/// claims the market has routed against a policy in one year is at most the value the
/// year started from, and that value is the policy's sum insured while it is in force.
pub proof fn lemma_annual_claims_capped(m: &Market, policy: u64, year: u32)
    requires
        m.wf(),
        m@.claimed.contains_key((policy, year)),
    ensures
        m@.claimed[(policy, year)] <= m@.cap[(policy, year)],
        m@.policies.contains_key(policy) ==> m@.cap[(policy, year)]
            == m@.policies[policy].risk.sum_insured,
{
}

} // verus!

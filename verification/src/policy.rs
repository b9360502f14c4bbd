//! Build policy: where a site's materials come from when the republic cannot
//! make them.
//!
//! Auto-import buys a site's shortfall at a border post of the player's
//! choosing, in that post's own currency, and lands it at the post. It never
//! shortens a build: lorries still have to fetch the goods and crews still
//! have to do the work.
//!
//! There is a default post that every site follows, and a site may say
//! otherwise, including saying **off** while the default is on: an instruction
//! is an `Option<CrossingId>`, and having no instruction is different from
//! having one that says no.
//!
//! The Directorate buys a site's bill once: what has been bought on a site's
//! account is kept, and only the rest of the bill is ever bought again.

use crate::fleet::Destination;
use crate::resource::Resource;
use crate::trade::CrossingId;
use crate::units::Tonnes;
use std::collections::BTreeMap;
use vstd::prelude::*;

verus! {

/// A site as a number: every building, road site and line site has its own.
pub open spec fn site_key(site: Destination) -> int {
    match site {
        Destination::Building(b) => b.0 * 3,
        Destination::RoadSite(r) => r.0 * 3 + 1,
        Destination::LineSite(l) => l.0 * 3 + 2,
    }
}

/// A site's account for one resource, as a number.
pub open spec fn account_key(site: Destination, resource: Resource) -> int {
    site_key(site) * 32 + resource.rank()
}

fn site_key_of(site: Destination) -> (k: u64)
    ensures
        k == site_key(site),
        k < 0x4_0000_0000,
{
    match site {
        Destination::Building(b) => b.0 as u64 * 3,
        Destination::RoadSite(r) => r.0 as u64 * 3 + 1,
        Destination::LineSite(l) => l.0 as u64 * 3 + 2,
    }
}

fn account_key_of(site: Destination, resource: Resource) -> (k: u64)
    ensures
        k == account_key(site, resource),
{
    let s = site_key_of(site);
    let r = resource.index() as u64;
    s * 32 + r
}

/// Two sites share a number only if they are the same site, and two accounts
/// only if they are the same site and resource.
proof fn lemma_keys_injective(s1: Destination, r1: Resource, s2: Destination, r2: Resource)
    ensures
        site_key(s1) == site_key(s2) <==> s1 == s2,
        account_key(s1, r1) == account_key(s2, r2) <==> (s1 == s2 && r1 == r2),
{
    assert(0 <= r1.rank() < 22 && 0 <= r2.rank() < 22);
    if account_key(s1, r1) == account_key(s2, r2) {
        assert(site_key(s1) == site_key(s2)) by (nonlinear_arith)
            requires
                site_key(s1) * 32 + r1.rank() == site_key(s2) * 32 + r2.rank(),
                0 <= r1.rank() < 22,
                0 <= r2.rank() < 22,
        ;
    }
}

/// Where sites get materials the republic has not made.
#[derive(Debug, Clone, PartialEq)]
pub struct BuildPolicy {
    /// The post every site uses unless it says otherwise.
    global: Option<CrossingId>,
    /// Sites that disagree with the default, by site number.
    per_site: BTreeMap<u64, Option<CrossingId>>,
    /// What has already been bought abroad on each site's account, by account
    /// number.
    bought: BTreeMap<u64, Tonnes>,
}

impl BuildPolicy {
    pub closed spec fn global_spec(&self) -> Option<CrossingId> {
        self.global
    }

    /// The instruction a site has been given, if it has one of its own.
    pub closed spec fn instruction(&self, site: Destination) -> Option<Option<CrossingId>> {
        if self.per_site@.contains_key(site_key(site) as u64) {
            Some(self.per_site@[site_key(site) as u64])
        } else {
            None
        }
    }

    /// How many sites have an instruction of their own.
    pub closed spec fn override_count(&self) -> nat {
        self.per_site@.len()
    }

    /// Tonnes bought abroad on a site's account for one resource.
    pub closed spec fn bought_spec(&self, site: Destination, resource: Resource) -> nat {
        if self.bought@.contains_key(account_key(site, resource) as u64) {
            self.bought@[account_key(site, resource) as u64].0 as nat
        } else {
            0
        }
    }

    /// What is left of a bill once what was bought on the account is taken
    /// off it, never below nothing.
    pub open spec fn allowance_spec(&self, site: Destination, resource: Resource, bill: int) -> int {
        if bill >= self.bought_spec(site, resource) {
            bill - self.bought_spec(site, resource)
        } else {
            0
        }
    }

    /// The post a site imports through under this policy, if any.
    pub open spec fn crossing_spec(&self, site: Destination) -> Option<CrossingId> {
        match self.instruction(site) {
            Some(o) => o,
            None => self.global_spec(),
        }
    }

    /// A republic imports nothing until somebody says to.
    pub fn new() -> (p: BuildPolicy)
        ensures
            p.global_spec() is None,
            forall|site: Destination| #[trigger] p.instruction(site) is None,
            forall|site: Destination, r: Resource| #[trigger] p.bought_spec(site, r) == 0,
            p.override_count() == 0,
    {
        BuildPolicy { global: None, per_site: BTreeMap::new(), bought: BTreeMap::new() }
    }

    /// The post this site imports through, if it imports at all.
    pub fn crossing_for(&self, site: Destination) -> (r: Option<CrossingId>)
        ensures
            r == self.crossing_spec(site),
    {
        let k = site_key_of(site);
        match self.per_site.get(&k) {
            Some(instruction) => *instruction,
            None => self.global,
        }
    }

    /// The republic's default post.
    pub fn global(&self) -> (r: Option<CrossingId>)
        ensures
            r == self.global_spec(),
    {
        self.global
    }

    /// Whether this site has been given an instruction of its own.
    pub fn is_overridden(&self, site: Destination) -> (r: bool)
        ensures
            r == self.instruction(site) is Some,
    {
        let k = site_key_of(site);
        self.per_site.contains_key(&k)
    }

    /// How many sites disagree with the default.
    pub fn overrides(&self) -> (n: usize)
        ensures
            n == self.override_count(),
    {
        self.per_site.len()
    }

    /// What has been bought abroad on this site's account so far.
    pub fn bought_for(&self, site: Destination, resource: Resource) -> (t: Tonnes)
        ensures
            t.0 == self.bought_spec(site, resource),
    {
        let k = account_key_of(site, resource);
        match self.bought.get(&k) {
            Some(t) => *t,
            None => Tonnes::zero(),
        }
    }

    /// How much of a site's bill the Directorate will still buy.
    pub fn allowance(&self, site: Destination, resource: Resource, bill: Tonnes) -> (t: Tonnes)
        ensures
            t.0 == self.allowance_spec(site, resource, bill.0 as int),
    {
        bill.saturating_sub(self.bought_for(site, resource))
    }

    /// Book tonnes bought abroad to a site's account.
    pub fn record_bought(&mut self, site: Destination, resource: Resource, tonnes: Tonnes)
        requires
            old(self).bought_spec(site, resource) + tonnes.0 <= u64::MAX,
        ensures
            forall|s: Destination, r: Resource|
                #[trigger] final(self).bought_spec(s, r) == old(self).bought_spec(s, r) + if s == site
                    && r == resource {
                    tonnes.0 as nat
                } else {
                    0
                },
            forall|s: Destination| #[trigger] final(self).instruction(s) == old(self).instruction(s),
            final(self).global_spec() == old(self).global_spec(),
            final(self).override_count() == old(self).override_count(),
    {
        let so_far = self.bought_for(site, resource);
        let k = account_key_of(site, resource);
        self.bought.insert(k, Tonnes(so_far.0 + tonnes.0));
        proof {
            assert forall|s: Destination, r: Resource|
                #[trigger] self.bought_spec(s, r) == old(self).bought_spec(s, r) + if s == site && r
                    == resource {
                    tonnes.0 as nat
                } else {
                    0
                } by {
                lemma_keys_injective(s, r, site, resource);
                assert(0 <= account_key(s, r));
            }
        }
    }

    /// Name the post every site follows, or none.
    pub fn set_global(&mut self, crossing: Option<CrossingId>)
        ensures
            final(self).global_spec() == crossing,
            forall|s: Destination| #[trigger] final(self).instruction(s) == old(self).instruction(s),
            forall|s: Destination, r: Resource| #[trigger] final(self).bought_spec(s, r) == old(self).bought_spec(s, r),
            final(self).override_count() == old(self).override_count(),
    {
        self.global = crossing;
    }

    /// Give one site an instruction of its own: a post, or `None` for off.
    pub fn set_site(&mut self, site: Destination, crossing: Option<CrossingId>)
        ensures
            final(self).instruction(site) == Some(crossing),
            forall|s: Destination| s != site ==> #[trigger] final(self).instruction(s) == old(self).instruction(s),
            final(self).override_count() == old(self).override_count() + if old(self).instruction(site) is Some {
                0int
            } else {
                1
            },
            final(self).global_spec() == old(self).global_spec(),
            forall|s: Destination, r: Resource| #[trigger] final(self).bought_spec(s, r) == old(self).bought_spec(s, r),
    {
        let k = site_key_of(site);
        self.per_site.insert(k, crossing);
        proof {
            assert forall|s: Destination| s != site implies #[trigger] self.instruction(s) == old(self).instruction(s) by {
                lemma_keys_injective(s, Resource::Coal, site, Resource::Coal);
                assert(0 <= site_key(s));
            }
            if old(self).per_site@.contains_key(k) {
                assert(self.per_site@ =~= old(self).per_site@.insert(k, crossing));
                assert(self.per_site@.dom() =~= old(self).per_site@.dom());
            }
        }
    }

    /// Drop a site's instruction, so it follows the default again. Whether it
    /// had one.
    pub fn clear_site(&mut self, site: Destination) -> (had: bool)
        ensures
            had == old(self).instruction(site) is Some,
            final(self).instruction(site) is None,
            forall|s: Destination| s != site ==> #[trigger] final(self).instruction(s) == old(self).instruction(s),
            final(self).override_count() == old(self).override_count() - if had {
                1int
            } else {
                0
            },
            final(self).global_spec() == old(self).global_spec(),
            forall|s: Destination, r: Resource| #[trigger] final(self).bought_spec(s, r) == old(self).bought_spec(s, r),
    {
        let k = site_key_of(site);
        let had = self.per_site.remove(&k).is_some();
        proof {
            assert forall|s: Destination| s != site implies #[trigger] self.instruction(s) == old(self).instruction(s) by {
                lemma_keys_injective(s, Resource::Coal, site, Resource::Coal);
                assert(0 <= site_key(s));
            }
            if !had {
                assert(self.per_site@ =~= old(self).per_site@);
            }
        }
        had
    }

    /// Forget a site that no longer exists: its instruction and its accounts.
    pub fn forget(&mut self, site: Destination)
        ensures
            final(self).instruction(site) is None,
            forall|s: Destination| s != site ==> #[trigger] final(self).instruction(s) == old(self).instruction(s),
            forall|s: Destination, r: Resource|
                #[trigger] final(self).bought_spec(s, r) == if s == site {
                    0
                } else {
                    old(self).bought_spec(s, r)
                },
            final(self).override_count() == old(self).override_count() - if old(self).instruction(site) is Some {
                1int
            } else {
                0
            },
            final(self).global_spec() == old(self).global_spec(),
    {
        let k = site_key_of(site);
        self.per_site.remove(&k);
        let base = k * 32;
        let mut rank: u64 = 0;
        while rank < 22
            invariant
                rank <= 22,
                base == site_key(site) * 32,
                base < 0x80_0000_0000,
                self.per_site@ == old(self).per_site@.remove(site_key(site) as u64),
                self.global == old(self).global,
                forall|key: u64| base <= key < base + rank ==> !#[trigger] self.bought@.contains_key(key),
                forall|key: u64|
                    !(base <= key < base + 22) ==> #[trigger] self.bought@.contains_key(key) == old(self).bought@.contains_key(key)
                        && (old(self).bought@.contains_key(key) ==> self.bought@[key] == old(self).bought@[key]),
            decreases 22 - rank,
        {
            let key = base + rank;
            self.bought.remove(&key);
            rank = rank + 1;
        }
        proof {
            assert forall|s: Destination, r: Resource|
                #[trigger] self.bought_spec(s, r) == if s == site {
                    0
                } else {
                    old(self).bought_spec(s, r)
                } by {
                lemma_keys_injective(s, r, site, r);
                assert(0 <= r.rank() < 22);
                assert(0 <= site_key(s));
                if s != site {
                    lemma_keys_injective(s, r, site, r);
                    assert(site_key(s) != site_key(site));
                    assert(!(base <= account_key(s, r) < base + 22)) by (nonlinear_arith)
                        requires
                            base == site_key(site) * 32,
                            account_key(s, r) == site_key(s) * 32 + r.rank(),
                            0 <= r.rank() < 22,
                            site_key(s) != site_key(site),
                    ;
                }
            }
            assert forall|s: Destination| s != site implies #[trigger] self.instruction(s) == old(self).instruction(s) by {
                lemma_keys_injective(s, Resource::Coal, site, Resource::Coal);
                assert(0 <= site_key(s));
            }
            if !old(self).per_site@.contains_key(k) {
                assert(self.per_site@ =~= old(self).per_site@);
            }
        }
    }
}

/// Booking `tonnes` bought on an account lowers that account's allowance for
/// any bill by exactly what was bought, or to nothing if that is less, and
/// leaves every other account's allowance as it was.
pub proof fn buying_spends_the_allowance(
    before: BuildPolicy,
    after: BuildPolicy,
    site: Destination,
    resource: Resource,
    tonnes: nat,
    bill: nat,
)
    requires
        forall|s: Destination, r: Resource|
            #[trigger] after.bought_spec(s, r) == before.bought_spec(s, r) + if s == site && r == resource {
                tonnes
            } else {
                0
            },
    ensures
        after.allowance_spec(site, resource, bill as int) == before.allowance_spec(site, resource, bill as int) - if tonnes
            <= before.allowance_spec(site, resource, bill as int) {
            tonnes as int
        } else {
            before.allowance_spec(site, resource, bill as int)
        },
        forall|s: Destination, r: Resource, b: int|
            !(s == site && r == resource) ==> #[trigger] after.allowance_spec(s, r, b) == before.allowance_spec(s, r, b),
{
    assert(after.bought_spec(site, resource) == before.bought_spec(site, resource) + tonnes);
    assert forall|s: Destination, r: Resource, b: int|
        !(s == site && r == resource) implies #[trigger] after.allowance_spec(s, r, b) == before.allowance_spec(s, r, b) by {
        assert(after.bought_spec(s, r) == before.bought_spec(s, r));
    }
}

/// A site with an instruction of its own follows it, whatever the default
/// says, for as long as the instruction stands: naming another default,
/// booking purchases and instructing other sites all leave it be.
pub proof fn a_site_follows_its_own_instruction(
    set: BuildPolicy,
    later: BuildPolicy,
    site: Destination,
    crossing: Option<CrossingId>,
)
    requires
        set.instruction(site) == Some(crossing),
        later.instruction(site) == set.instruction(site),
    ensures
        later.crossing_spec(site) == crossing,
{
}

/// A site whose instruction was cleared, or that was forgotten, follows the
/// default again.
pub proof fn a_cleared_site_follows_the_default(p: BuildPolicy, site: Destination)
    requires
        p.instruction(site) is None,
    ensures
        p.crossing_spec(site) == p.global_spec(),
{
}

/// One thing done to a policy.
pub enum PolicyStep {
    Bought(Destination, Resource, u64),
    SetGlobal(Option<CrossingId>),
    SetSite(Destination, Option<CrossingId>),
    ClearSite(Destination),
    Forget(Destination),
}

/// `after` is what the step's method leaves of `before`, as its contract says.
pub open spec fn stepped(before: BuildPolicy, after: BuildPolicy, step: PolicyStep) -> bool {
    match step {
        PolicyStep::Bought(site, resource, tonnes) => {
            &&& forall|s: Destination, r: Resource|
                #[trigger] after.bought_spec(s, r) == before.bought_spec(s, r) + if s == site && r == resource {
                    tonnes as nat
                } else {
                    0
                }
            &&& forall|s: Destination| #[trigger] after.instruction(s) == before.instruction(s)
        },
        PolicyStep::SetGlobal(_) => {
            &&& forall|s: Destination, r: Resource| #[trigger] after.bought_spec(s, r) == before.bought_spec(s, r)
            &&& forall|s: Destination| #[trigger] after.instruction(s) == before.instruction(s)
        },
        PolicyStep::SetSite(site, crossing) => {
            &&& forall|s: Destination, r: Resource| #[trigger] after.bought_spec(s, r) == before.bought_spec(s, r)
            &&& after.instruction(site) == Some(crossing)
            &&& forall|s: Destination| s != site ==> #[trigger] after.instruction(s) == before.instruction(s)
        },
        PolicyStep::ClearSite(site) => {
            &&& forall|s: Destination, r: Resource| #[trigger] after.bought_spec(s, r) == before.bought_spec(s, r)
            &&& after.instruction(site) is None
            &&& forall|s: Destination| s != site ==> #[trigger] after.instruction(s) == before.instruction(s)
        },
        PolicyStep::Forget(site) => {
            &&& forall|s: Destination, r: Resource|
                #[trigger] after.bought_spec(s, r) == if s == site {
                    0
                } else {
                    before.bought_spec(s, r)
                }
            &&& after.instruction(site) is None
            &&& forall|s: Destination| s != site ==> #[trigger] after.instruction(s) == before.instruction(s)
        },
    }
}

/// What a run of steps has booked to one account: every purchase for it
/// since the site was last forgotten.
pub open spec fn booked(steps: Seq<PolicyStep>, site: Destination, resource: Resource) -> nat
    decreases steps.len(),
{
    if steps.len() == 0 {
        0
    } else {
        let before = booked(steps.drop_last(), site, resource);
        match steps.last() {
            PolicyStep::Bought(s, r, t) => if s == site && r == resource {
                before + t as nat
            } else {
                before
            },
            PolicyStep::Forget(s) => if s == site {
                0
            } else {
                before
            },
            _ => before,
        }
    }
}

/// The instruction a run of steps leaves a site with: the last one it was
/// given, unless it was cleared or forgotten since.
pub open spec fn instructed(steps: Seq<PolicyStep>, site: Destination) -> Option<Option<CrossingId>>
    decreases steps.len(),
{
    if steps.len() == 0 {
        None
    } else {
        let before = instructed(steps.drop_last(), site);
        match steps.last() {
            PolicyStep::SetSite(s, c) => if s == site {
                Some(c)
            } else {
                before
            },
            PolicyStep::ClearSite(s) => if s == site {
                None
            } else {
                before
            },
            PolicyStep::Forget(s) => if s == site {
                None
            } else {
                before
            },
            _ => before,
        }
    }
}

/// From a new policy, whatever is done to it in turn: every account holds
/// exactly what was bought on it since its site was last forgotten, and a
/// site is overridden exactly when its last instruction has not been cleared
/// or forgotten since, and then by that instruction.
pub proof fn a_policy_remembers_what_was_done_to_it(policies: Seq<BuildPolicy>, steps: Seq<PolicyStep>)
    requires
        policies.len() == steps.len() + 1,
        forall|s: Destination| #[trigger] policies[0].instruction(s) is None,
        forall|s: Destination, r: Resource| #[trigger] policies[0].bought_spec(s, r) == 0,
        forall|i: int| 0 <= i < steps.len() ==> stepped(#[trigger] policies[i], policies[i + 1], steps[i]),
    ensures
        forall|s: Destination, r: Resource| #[trigger] policies.last().bought_spec(s, r) == booked(steps, s, r),
        forall|s: Destination| #[trigger] policies.last().instruction(s) == instructed(steps, s),
    decreases steps.len(),
{
    if steps.len() > 0 {
        let n = steps.len();
        let front = policies.drop_last();
        assert forall|i: int| 0 <= i < steps.drop_last().len() implies stepped(
            #[trigger] front[i],
            front[i + 1],
            steps.drop_last()[i],
        ) by {
            assert(front[i] == policies[i] && front[i + 1] == policies[i + 1]);
            assert(stepped(policies[i], policies[i + 1], steps[i]));
        }
        assert(front[0] == policies[0]);
        a_policy_remembers_what_was_done_to_it(front, steps.drop_last());
        let before = policies[n - 1];
        let after = policies[n as int];
        assert(front.last() == before);
        assert(stepped(before, after, steps[n - 1]));
        assert(steps.last() == steps[n - 1]);
        assert(policies.last() == after);
        assert forall|s: Destination, r: Resource| #[trigger] after.bought_spec(s, r) == booked(steps, s, r) by {
            assert(before.bought_spec(s, r) == booked(steps.drop_last(), s, r));
        }
        assert forall|s: Destination| #[trigger] after.instruction(s) == instructed(steps, s) by {
            assert(before.instruction(s) == instructed(steps.drop_last(), s));
        }
    }
}

} // verus!

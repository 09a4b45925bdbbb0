//! Running totals over the sessions: of all, of each tenant and of each device.
use crate::identity::{DeviceKey, DeviceView, KeyView, SessionKey, TenantId};
use crate::list::distinct;
use crate::session::{usage_of, SessionUsage, SessionView, UsageView};
use crate::table::{entry_key, law_one_value_per_key, lookup, Table};
use vstd::prelude::*;

verus! {

pub open spec fn no_usage() -> UsageView {
    UsageView {
        sessions: 0,
        state_bytes: 0,
        subscriptions: 0,
        offline_count: 0,
        offline_bytes: 0,
        qos1_inflight: 0,
        qos2_inflight: 0,
    }
}

pub open spec fn plus(a: UsageView, b: UsageView) -> UsageView {
    UsageView {
        sessions: a.sessions + b.sessions,
        state_bytes: a.state_bytes + b.state_bytes,
        subscriptions: a.subscriptions + b.subscriptions,
        offline_count: a.offline_count + b.offline_count,
        offline_bytes: a.offline_bytes + b.offline_bytes,
        qos1_inflight: a.qos1_inflight + b.qos1_inflight,
        qos2_inflight: a.qos2_inflight + b.qos2_inflight,
    }
}

/// No amount is greater.
pub open spec fn within(a: UsageView, b: UsageView) -> bool {
    &&& a.sessions <= b.sessions
    &&& a.state_bytes <= b.state_bytes
    &&& a.subscriptions <= b.subscriptions
    &&& a.offline_count <= b.offline_count
    &&& a.offline_bytes <= b.offline_bytes
    &&& a.qos1_inflight <= b.qos1_inflight
    &&& a.qos2_inflight <= b.qos2_inflight
}

/// Every amount is at most `n`.
pub open spec fn flat(n: nat) -> UsageView {
    UsageView {
        sessions: n,
        state_bytes: n,
        subscriptions: n,
        offline_count: n,
        offline_bytes: n,
        qos1_inflight: n,
        qos2_inflight: n,
    }
}

/// What one entry of the ledger adds to a sum.
pub open spec fn share(entry: (KeyView, UsageView), p: spec_fn(KeyView) -> bool) -> UsageView {
    if p(entry.0) {
        entry.1
    } else {
        no_usage()
    }
}

/// The sum over the entries whose key has a property.
pub open spec fn ledger_sum(l: Seq<(KeyView, UsageView)>, p: spec_fn(KeyView) -> bool) -> UsageView
    decreases l.len(),
{
    if l.len() == 0 {
        no_usage()
    } else {
        plus(ledger_sum(l.drop_last(), p), share(l.last(), p))
    }
}

pub open spec fn anyone() -> spec_fn(KeyView) -> bool {
    |k: KeyView| true
}

pub open spec fn in_tenant(tenant: Seq<char>) -> spec_fn(KeyView) -> bool {
    |k: KeyView| k.device.tenant == tenant
}

pub open spec fn of_device(device: DeviceView) -> spec_fn(KeyView) -> bool {
    |k: KeyView| k.device == device
}

/// What each session counts for.
pub open spec fn ledger_of(sessions: Seq<SessionView>) -> Seq<(KeyView, UsageView)> {
    Seq::new(sessions.len(), |i: int| (sessions[i].key, usage_of(sessions[i])))
}

/// What the sessions with a property count for together.
pub open spec fn usage_sum(sessions: Seq<SessionView>, p: spec_fn(KeyView) -> bool) -> UsageView {
    ledger_sum(ledger_of(sessions), p)
}

pub open spec fn total_usage(sessions: Seq<SessionView>) -> UsageView {
    usage_sum(sessions, anyone())
}

pub open spec fn tenant_usage(sessions: Seq<SessionView>, tenant: Seq<char>) -> UsageView {
    usage_sum(sessions, in_tenant(tenant))
}

pub proof fn lemma_sum_add(
    a: Seq<(KeyView, UsageView)>,
    b: Seq<(KeyView, UsageView)>,
    p: spec_fn(KeyView) -> bool,
)
    ensures
        ledger_sum(a + b, p) == plus(ledger_sum(a, p), ledger_sum(b, p)),
    decreases b.len(),
{
    if b.len() == 0 {
        assert(a + b =~= a);
    } else {
        lemma_sum_add(a, b.drop_last(), p);
        assert((a + b).drop_last() =~= a + b.drop_last());
    }
}

pub proof fn lemma_sum_push(
    l: Seq<(KeyView, UsageView)>,
    entry: (KeyView, UsageView),
    p: spec_fn(KeyView) -> bool,
)
    ensures
        ledger_sum(l.push(entry), p) == plus(ledger_sum(l, p), share(entry, p)),
{
    assert(l.push(entry).drop_last() =~= l);
}

pub proof fn lemma_sum_remove(l: Seq<(KeyView, UsageView)>, i: int, p: spec_fn(KeyView) -> bool)
    requires
        0 <= i < l.len(),
    ensures
        plus(ledger_sum(l.remove(i), p), share(l[i], p)) == ledger_sum(l, p),
{
    let one = seq![l[i]];
    lemma_sum_add(l.take(i), l.skip(i + 1), p);
    lemma_sum_add(l.take(i), one + l.skip(i + 1), p);
    lemma_sum_add(one, l.skip(i + 1), p);
    assert(l.remove(i) =~= l.take(i) + l.skip(i + 1));
    assert(l =~= l.take(i) + (one + l.skip(i + 1)));
    assert(one.drop_last() =~= Seq::<(KeyView, UsageView)>::empty());
    assert(ledger_sum(one, p) == share(l[i], p)) by {
        reveal_with_fuel(ledger_sum, 2);
    }
}

pub proof fn lemma_sum_update(
    l: Seq<(KeyView, UsageView)>,
    i: int,
    usage: UsageView,
    p: spec_fn(KeyView) -> bool,
)
    requires
        0 <= i < l.len(),
    ensures
        plus(ledger_sum(l.update(i, (l[i].0, usage)), p), share(l[i], p)) == plus(
            ledger_sum(l, p),
            share((l[i].0, usage), p),
        ),
        within(share(l[i], p), ledger_sum(l, p)),
{
    let m = l.update(i, (l[i].0, usage));
    lemma_sum_remove(l, i, p);
    lemma_sum_remove(m, i, p);
    assert(m.remove(i) =~= l.remove(i));
}

/// A part of the ledger never sums to more than the whole.
pub proof fn lemma_sum_part(l: Seq<(KeyView, UsageView)>, p: spec_fn(KeyView) -> bool)
    ensures
        within(ledger_sum(l, p), ledger_sum(l, anyone())),
    decreases l.len(),
{
    if l.len() > 0 {
        lemma_sum_part(l.drop_last(), p);
    }
}

proof fn lemma_sum_none(l: Seq<(KeyView, UsageView)>, p: spec_fn(KeyView) -> bool)
    requires
        forall|i: int| 0 <= i < l.len() ==> (#[trigger] l[i]).1.sessions == 1,
        ledger_sum(l, p).sessions == 0,
    ensures
        ledger_sum(l, p) == no_usage(),
    decreases l.len(),
{
    if l.len() > 0 {
        assert(l[l.len() - 1].1.sessions == 1);
        lemma_sum_none(l.drop_last(), p);
    }
}

/// One entry's amounts fit the machine.
pub open spec fn entry_fits(usage: UsageView) -> bool {
    usage.sessions == 1 && within(usage, flat(usize::MAX as nat))
}

proof fn lemma_sum_bound(l: Seq<(KeyView, UsageView)>, p: spec_fn(KeyView) -> bool)
    requires
        forall|i: int| 0 <= i < l.len() ==> entry_fits((#[trigger] l[i]).1),
    ensures
        within(ledger_sum(l, p), flat(l.len() * usize::MAX as nat)),
    decreases l.len(),
{
    if l.len() > 0 {
        assert(entry_fits(l[l.len() - 1].1));
        lemma_sum_bound(l.drop_last(), p);
        assert(l.len() * usize::MAX as nat == (l.len() - 1) * usize::MAX as nat + usize::MAX as nat)
            by (nonlinear_arith)
            requires
                l.len() > 0,
        ;
        assert(l.drop_last().len() == l.len() - 1);
    }
}

proof fn lemma_square(n: nat)
    requires
        n <= usize::MAX,
    ensures
        n * usize::MAX as nat + usize::MAX as nat <= u128::MAX,
{
    assert(n * usize::MAX as nat <= usize::MAX as nat * usize::MAX as nat) by (nonlinear_arith)
        requires
            n <= usize::MAX,
    ;
    assert(usize::MAX as nat * usize::MAX as nat <= 0xffff_ffff_ffff_ffff
        * 0xffff_ffff_ffff_ffff) by (nonlinear_arith)
        requires
            usize::MAX <= 0xffff_ffff_ffff_ffff,
    ;
}

/// The amounts beside a key, nothing if the key is not there.
pub open spec fn amounts<V>(s: Seq<(V, SessionUsage)>, key: V) -> UsageView {
    match lookup(s, key) {
        Some(usage) => usage@,
        None => no_usage(),
    }
}

pub open spec fn number<V>(s: Seq<(V, u128)>, key: V) -> nat {
    match lookup(s, key) {
        Some(n) => n as nat,
        None => 0,
    }
}

/// The running totals.
#[derive(Debug, PartialEq, Eq)]
pub struct Accounts {
    pub ledger: Vec<SessionUsage>,
    pub totals: SessionUsage,
    pub tenants: Table<TenantId, SessionUsage>,
    pub devices: Table<DeviceKey, u128>,
}

/// The totals are what the ledger adds up to, for everyone, each tenant and each device.
#[verifier::opaque]
pub open spec fn balanced(accounts: Accounts, l: Seq<(KeyView, UsageView)>) -> bool {
    &&& accounts.ledger@.len() == l.len()
    &&& forall|i: int| 0 <= i < l.len() ==> (#[trigger] accounts.ledger@[i])@ == l[i].1
    &&& forall|i: int| 0 <= i < l.len() ==> entry_fits((#[trigger] l[i]).1)
    &&& accounts.totals@ == ledger_sum(l, anyone())
    &&& distinct(accounts.tenants@, entry_key())
    &&& distinct(accounts.devices@, entry_key())
    &&& forall|t: Seq<char>|
        #![trigger lookup(accounts.tenants@, t)]
        #![trigger ledger_sum(l, in_tenant(t))]
        amounts(accounts.tenants@, t) == ledger_sum(l, in_tenant(t)) && (lookup(
            accounts.tenants@,
            t,
        ) is Some <==> ledger_sum(l, in_tenant(t)).sessions > 0)
    &&& forall|d: DeviceView|
        #![trigger lookup(accounts.devices@, d)]
        #![trigger ledger_sum(l, of_device(d))]
        number(accounts.devices@, d) == ledger_sum(l, of_device(d)).subscriptions && (lookup(
            accounts.devices@,
            d,
        ) is Some <==> ledger_sum(l, of_device(d)).subscriptions > 0)
}

fn apply_usage_delta(value: u128, before: u128, after: u128) -> (result: u128)
    requires
        before <= value,
        value - before + after <= u128::MAX,
    ensures
        result == value - before + after,
{
    value - before + after
}

fn apply_delta(value: SessionUsage, before: SessionUsage, after: SessionUsage) -> (result:
    SessionUsage)
    requires
        within(before@, value@),
        exists|sum: UsageView|
            #![trigger plus(sum, before@)]
            plus(sum, before@) == plus(value@, after@) && within(sum, flat(u128::MAX as nat)),
    ensures
        plus(result@, before@) == plus(value@, after@),
{
    SessionUsage {
        sessions: apply_usage_delta(value.sessions, before.sessions, after.sessions),
        state_bytes: apply_usage_delta(value.state_bytes, before.state_bytes, after.state_bytes),
        subscriptions: apply_usage_delta(
            value.subscriptions,
            before.subscriptions,
            after.subscriptions,
        ),
        offline_count: apply_usage_delta(
            value.offline_count,
            before.offline_count,
            after.offline_count,
        ),
        offline_bytes: apply_usage_delta(
            value.offline_bytes,
            before.offline_bytes,
            after.offline_bytes,
        ),
        qos1_inflight: apply_usage_delta(
            value.qos1_inflight,
            before.qos1_inflight,
            after.qos1_inflight,
        ),
        qos2_inflight: apply_usage_delta(
            value.qos2_inflight,
            before.qos2_inflight,
            after.qos2_inflight,
        ),
    }
}

pub fn zero_usage() -> (usage: SessionUsage)
    ensures
        usage@ == no_usage(),
{
    SessionUsage {
        sessions: 0,
        state_bytes: 0,
        subscriptions: 0,
        offline_count: 0,
        offline_bytes: 0,
        qos1_inflight: 0,
        qos2_inflight: 0,
    }
}

/// How the sums move from one ledger to another when one entry under `key` goes from `before` to
/// `after`.
spec fn moved(
    l: Seq<(KeyView, UsageView)>,
    m: Seq<(KeyView, UsageView)>,
    key: KeyView,
    before: UsageView,
    after: UsageView,
) -> bool {
    forall|p: spec_fn(KeyView) -> bool| #[trigger]
        plus(ledger_sum(m, p), share((key, before), p)) == plus(
            ledger_sum(l, p),
            share((key, after), p),
        ) && within(share((key, before), p), ledger_sum(l, p)) && within(
            ledger_sum(m, p),
            flat(u128::MAX as nat),
        )
}

impl Accounts {
    pub fn new() -> (accounts: Accounts)
        ensures
            balanced(accounts, Seq::empty()),
    {
        let accounts = Accounts {
            ledger: Vec::new(),
            totals: zero_usage(),
            tenants: Table::new(),
            devices: Table::new(),
        };
        proof {
            reveal(balanced);
            assert forall|t: Seq<char>|
                #![trigger lookup(accounts.tenants@, t)]
                lookup(accounts.tenants@, t) is None by {
                crate::list::lemma_first(
                    accounts.tenants@,
                    crate::table::entry_is::<Seq<char>, SessionUsage>(t),
                );
            }
            assert forall|d: DeviceView|
                #![trigger lookup(accounts.devices@, d)]
                lookup(accounts.devices@, d) is None by {
                crate::list::lemma_first(
                    accounts.devices@,
                    crate::table::entry_is::<DeviceView, u128>(d),
                );
            }
        }
        accounts
    }

    /// Brings the tables of all, of the tenant and of the device to the new sums.
    fn carry(
        &mut self,
        key: &SessionKey,
        before: SessionUsage,
        after: SessionUsage,
        Ghost(l): Ghost<Seq<(KeyView, UsageView)>>,
        Ghost(m): Ghost<Seq<(KeyView, UsageView)>>,
    )
        requires
            balanced(*old(self), l),
            moved(l, m, key@, before@, after@),
            forall|i: int| 0 <= i < m.len() ==> entry_fits((#[trigger] m[i]).1),
        ensures
            final(self).ledger == old(self).ledger,
            final(self).totals@ == ledger_sum(m, anyone()),
            distinct(final(self).tenants@, entry_key()),
            distinct(final(self).devices@, entry_key()),
            forall|t: Seq<char>|
                #![trigger lookup(final(self).tenants@, t)]
                #![trigger ledger_sum(m, in_tenant(t))]
                amounts(final(self).tenants@, t) == ledger_sum(m, in_tenant(t)) && (lookup(
                    final(self).tenants@,
                    t,
                ) is Some <==> ledger_sum(m, in_tenant(t)).sessions > 0),
            forall|d: DeviceView|
                #![trigger lookup(final(self).devices@, d)]
                #![trigger ledger_sum(m, of_device(d))]
                number(final(self).devices@, d) == ledger_sum(m, of_device(d)).subscriptions && (
                lookup(final(self).devices@, d) is Some <==> ledger_sum(
                    m,
                    of_device(d),
                ).subscriptions > 0),
    {
        let ghost k = key@;
        let ghost tenant = k.device.tenant;
        proof {
            reveal(balanced);
            assert(plus(ledger_sum(m, anyone()), share((k, before@), anyone())) == plus(
                ledger_sum(l, anyone()),
                share((k, after@), anyone()),
            ));
            assert(plus(
                ledger_sum(m, in_tenant(tenant)),
                share((k, before@), in_tenant(tenant)),
            ) == plus(ledger_sum(l, in_tenant(tenant)), share((k, after@), in_tenant(tenant))));
            assert(plus(
                ledger_sum(m, of_device(k.device)),
                share((k, before@), of_device(k.device)),
            ) == plus(
                ledger_sum(l, of_device(k.device)),
                share((k, after@), of_device(k.device)),
            ));
        }
        let ghost before_tenants = self.tenants@;
        let ghost before_devices = self.devices@;
        self.totals = apply_delta(self.totals, before, after);
        let held = match self.tenants.get(&key.device.tenant_id) {
            Some(usage) => usage,
            None => zero_usage(),
        };
        assert(held@ == amounts(before_tenants, tenant));
        let usage = apply_delta(held, before, after);
        let kept = if usage.sessions == 0 {
            None
        } else {
            Some(usage)
        };
        self.tenants.put(&key.device.tenant_id, kept);
        let counted: u128 = match self.devices.get(&key.device) {
            Some(n) => n,
            None => 0,
        };
        let count: u128 = apply_usage_delta(counted, before.subscriptions, after.subscriptions);
        let kept_count: Option<u128> = if count == 0 {
            None
        } else {
            Some(count)
        };
        self.devices.put(&key.device, kept_count);
        proof {
            law_one_value_per_key(before_tenants, tenant, kept, tenant);
            law_one_value_per_key(before_devices, k.device, kept_count, k.device);
            assert(usage@ == ledger_sum(m, in_tenant(tenant)));
            if usage.sessions == 0 {
                lemma_sum_none(m, in_tenant(tenant));
            }
            assert forall|t: Seq<char>|
                #![trigger lookup(self.tenants@, t)]
                #![trigger ledger_sum(m, in_tenant(t))]
                amounts(self.tenants@, t) == ledger_sum(m, in_tenant(t)) && (lookup(
                    self.tenants@,
                    t,
                ) is Some <==> ledger_sum(m, in_tenant(t)).sessions > 0) by {
                if t != tenant {
                    law_one_value_per_key(before_tenants, tenant, kept, t);
                    assert(plus(ledger_sum(m, in_tenant(t)), share((k, before@), in_tenant(t)))
                        == plus(ledger_sum(l, in_tenant(t)), share((k, after@), in_tenant(t))));
                    assert(lookup(before_tenants, t) == lookup(self.tenants@, t));
                }
            }
            assert forall|d: DeviceView|
                #![trigger lookup(self.devices@, d)]
                #![trigger ledger_sum(m, of_device(d))]
                number(self.devices@, d) == ledger_sum(m, of_device(d)).subscriptions && (lookup(
                    self.devices@,
                    d,
                ) is Some <==> ledger_sum(m, of_device(d)).subscriptions > 0) by {
                if d != k.device {
                    law_one_value_per_key(before_devices, k.device, kept_count, d);
                    assert(plus(ledger_sum(m, of_device(d)), share((k, before@), of_device(d)))
                        == plus(ledger_sum(l, of_device(d)), share((k, after@), of_device(d))));
                    assert(lookup(before_devices, d) == lookup(self.devices@, d));
                }
            }
        }
    }

    /// Replaces what one session counts for.
    pub fn replace(
        &mut self,
        at: usize,
        key: &SessionKey,
        usage: SessionUsage,
        Ghost(l): Ghost<Seq<(KeyView, UsageView)>>,
    )
        requires
            balanced(*old(self), l),
            at < l.len(),
            l.len() <= usize::MAX,
            l[at as int].0 == key@,
            entry_fits(usage@),
        ensures
            balanced(*final(self), l.update(at as int, (key@, usage@))),
    {
        let ghost m = l.update(at as int, (key@, usage@));
        proof {
            reveal(balanced);
        }
        let before = self.ledger[at];
        proof {
            assert(forall|i: int| 0 <= i < m.len() ==> entry_fits((#[trigger] m[i]).1)) by {
                assert forall|i: int| 0 <= i < m.len() implies entry_fits((#[trigger] m[i]).1) by {
                    assert(entry_fits(l[i].1));
                }
            }
            assert forall|p: spec_fn(KeyView) -> bool| #[trigger]
                plus(ledger_sum(m, p), share((key@, before@), p)) == plus(
                    ledger_sum(l, p),
                    share((key@, usage@), p),
                ) && within(share((key@, before@), p), ledger_sum(l, p)) && within(
                    ledger_sum(m, p),
                    flat(u128::MAX as nat),
                ) by {
                assert(self.ledger@[at as int]@ == l[at as int].1);
                assert(l[at as int] == (key@, before@));
                lemma_sum_update(l, at as int, usage@, p);
                lemma_sum_bound(m, p);
                lemma_square(m.len());
            }
        }
        self.carry(key, before, usage, Ghost(l), Ghost(m));
        self.ledger[at] = usage;
        proof {
            assert forall|i: int| 0 <= i < m.len() implies (#[trigger] self.ledger@[i])@
                == m[i].1 by {
                assert(old(self).ledger@[i]@ == l[i].1);
            }
        }
    }

    /// Counts a new session.
    pub fn append(
        &mut self,
        key: &SessionKey,
        usage: SessionUsage,
        Ghost(l): Ghost<Seq<(KeyView, UsageView)>>,
    )
        requires
            balanced(*old(self), l),
            l.len() < usize::MAX,
            entry_fits(usage@),
        ensures
            balanced(*final(self), l.push((key@, usage@))),
    {
        let ghost m = l.push((key@, usage@));
        let nothing = zero_usage();
        proof {
            reveal(balanced);
            assert forall|i: int| 0 <= i < m.len() implies entry_fits((#[trigger] m[i]).1) by {
                if i < l.len() {
                    assert(entry_fits(l[i].1));
                }
            }
            assert forall|p: spec_fn(KeyView) -> bool| #[trigger]
                plus(ledger_sum(m, p), share((key@, nothing@), p)) == plus(
                    ledger_sum(l, p),
                    share((key@, usage@), p),
                ) && within(share((key@, nothing@), p), ledger_sum(l, p)) && within(
                    ledger_sum(m, p),
                    flat(u128::MAX as nat),
                ) by {
                lemma_sum_push(l, (key@, usage@), p);
                lemma_sum_bound(m, p);
                lemma_square(m.len());
            }
        }
        self.carry(key, nothing, usage, Ghost(l), Ghost(m));
        self.ledger.push(usage);
        proof {
            assert forall|i: int| 0 <= i < m.len() implies (#[trigger] self.ledger@[i])@
                == m[i].1 by {
                if i < l.len() {
                    assert(old(self).ledger@[i]@ == l[i].1);
                }
            }
        }
    }

    /// Stops counting a session.
    pub fn withdraw(
        &mut self,
        at: usize,
        key: &SessionKey,
        Ghost(l): Ghost<Seq<(KeyView, UsageView)>>,
    )
        requires
            balanced(*old(self), l),
            at < l.len(),
            l.len() <= usize::MAX,
            l[at as int].0 == key@,
        ensures
            balanced(*final(self), l.remove(at as int)),
    {
        let ghost m = l.remove(at as int);
        let nothing = zero_usage();
        proof {
            reveal(balanced);
        }
        let before = self.ledger[at];
        proof {
            assert forall|i: int| 0 <= i < m.len() implies entry_fits((#[trigger] m[i]).1) by {
                if i < at {
                    assert(entry_fits(l[i].1));
                } else {
                    assert(entry_fits(l[i + 1].1));
                }
            }
            assert forall|p: spec_fn(KeyView) -> bool| #[trigger]
                plus(ledger_sum(m, p), share((key@, before@), p)) == plus(
                    ledger_sum(l, p),
                    share((key@, nothing@), p),
                ) && within(share((key@, before@), p), ledger_sum(l, p)) && within(
                    ledger_sum(m, p),
                    flat(u128::MAX as nat),
                ) by {
                assert(self.ledger@[at as int]@ == l[at as int].1);
                assert(l[at as int] == (key@, before@));
                lemma_sum_remove(l, at as int, p);
                lemma_sum_bound(m, p);
                lemma_square(m.len());
            }
        }
        self.carry(key, before, nothing, Ghost(l), Ghost(m));
        let _ = self.ledger.remove(at);
        proof {
            assert forall|i: int| 0 <= i < m.len() implies (#[trigger] self.ledger@[i])@
                == m[i].1 by {
                if i < at {
                    assert(old(self).ledger@[i]@ == l[i].1);
                } else {
                    assert(old(self).ledger@[i + 1]@ == l[i + 1].1);
                }
            }
        }
    }

    /// What one session counted for when it was last looked at.
    pub fn entry(&self, at: usize, Ghost(l): Ghost<Seq<(KeyView, UsageView)>>) -> (usage:
        SessionUsage)
        requires
            balanced(*self, l),
            at < l.len(),
        ensures
            usage@ == l[at as int].1,
    {
        proof {
            reveal(balanced);
        }
        self.ledger[at]
    }

    /// What all sessions count for.
    pub fn all(&self, Ghost(l): Ghost<Seq<(KeyView, UsageView)>>) -> (usage: SessionUsage)
        requires
            balanced(*self, l),
        ensures
            usage@ == ledger_sum(l, anyone()),
    {
        proof {
            reveal(balanced);
        }
        self.totals
    }

    /// What the sessions of a tenant count for.
    pub fn tenant(&self, tenant: &TenantId, Ghost(l): Ghost<Seq<(KeyView, UsageView)>>) -> (usage:
        SessionUsage)
        requires
            balanced(*self, l),
        ensures
            usage@ == ledger_sum(l, in_tenant(tenant@)),
    {
        proof {
            reveal(balanced);
        }
        match self.tenants.get(tenant) {
            Some(usage) => usage,
            None => zero_usage(),
        }
    }

    /// How many subscriptions the sessions of a device hold.
    pub fn device_subscriptions(
        &self,
        device: &DeviceKey,
        Ghost(l): Ghost<Seq<(KeyView, UsageView)>>,
    ) -> (count: u128)
        requires
            balanced(*self, l),
        ensures
            count == ledger_sum(l, of_device(device@)).subscriptions,
    {
        proof {
            reveal(balanced);
        }
        match self.devices.get(device) {
            Some(count) => count,
            None => 0,
        }
    }
}

} // verus!

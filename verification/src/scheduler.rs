//! What to do when: jobs that come back, and work that was put off. Times are
//! milliseconds of a monotonic clock.
use crate::effects::Task;
use crate::model;
use vstd::prelude::*;

verus! {

pub const POLL_SG_INTERVAL: u64 = 30_000;

pub const MAINTAIN_CONNECTIONS_INTERVAL: u64 = 300_000;

/// Well under the half minute after which routers forget a mapping.
pub const KEEPALIVE_DG_INTERVAL: u64 = 20_000;

pub const CLEANUP_TUNNELS_INTERVAL: u64 = 300_000;

pub const SYNC_CONTACTS_INTERVAL: u64 = 86_400_000;

/// Something to do now.
#[derive(Clone, Copy, PartialEq, Eq, Debug)]
pub enum Job {
    PollSg,
    MaintainConnections,
    KeepAliveDg,
    CleanupTunnels,
    SyncContacts,
    Once(Task),
}

/// Work that was put off.
#[derive(Clone, Copy, PartialEq, Eq, Debug)]
pub struct Put {
    pub due_at: u64,
    pub task: Task,
}

/// A wish to put work off for so many milliseconds.
#[derive(Clone, Copy, PartialEq, Eq, Debug)]
pub struct ScheduleRequest {
    pub task: Task,
    pub delay_ms: u64,
}

/// When each job ran last, and what was put off.
#[derive(Debug, PartialEq, Eq)]
pub struct Schedule {
    pub last_poll_sg: u64,
    pub last_maintain: u64,
    pub last_keepalive: u64,
    pub last_cleanup_tunnels: u64,
    pub last_sync_contacts: u64,
    pub pending: Vec<Put>,
}

#[verifier::ext_equal]
pub struct ScheduleView {
    pub last_poll_sg: u64,
    pub last_maintain: u64,
    pub last_keepalive: u64,
    pub last_cleanup_tunnels: u64,
    pub last_sync_contacts: u64,
    pub pending: Seq<Put>,
}

impl View for Schedule {
    type V = ScheduleView;

    open spec fn view(&self) -> ScheduleView {
        ScheduleView {
            last_poll_sg: self.last_poll_sg,
            last_maintain: self.last_maintain,
            last_keepalive: self.last_keepalive,
            last_cleanup_tunnels: self.last_cleanup_tunnels,
            last_sync_contacts: self.last_sync_contacts,
            pending: self.pending@,
        }
    }
}

/// A job is due once its interval has passed.
pub open spec fn is_due(now: u64, last: u64, interval: u64) -> bool {
    now >= last && now - last >= interval
}

fn due(now: u64, last: u64, interval: u64) -> (r: bool)
    ensures
        r == is_due(now, last, interval),
{
    now >= last && now - last >= interval
}

/// When a job ran last, after a look at the clock.
pub open spec fn ran(now: u64, last: u64, interval: u64) -> u64 {
    if is_due(now, last, interval) {
        now
    } else {
        last
    }
}

/// The job, if it is due.
pub open spec fn job_if(job: Job, now: u64, last: u64, interval: u64) -> Seq<Job> {
    if is_due(now, last, interval) {
        seq![job]
    } else {
        Seq::empty()
    }
}

/// The wishes, with the time at which each is due.
pub open spec fn put_off(reqs: Seq<ScheduleRequest>, now: u64) -> Seq<Put> {
    Seq::new(
        reqs.len(),
        |i: int| Put { due_at: (now + reqs[i].delay_ms) as u64, task: reqs[i].task },
    )
}

pub open spec fn ripe(now: u64) -> spec_fn(Put) -> bool {
    |p: Put| p.due_at <= now
}

pub open spec fn unripe(now: u64) -> spec_fn(Put) -> bool {
    |p: Put| p.due_at > now
}

/// The jobs for work that was put off.
pub open spec fn once_each(s: Seq<Put>) -> Seq<Job> {
    Seq::new(s.len(), |i: int| Job::Once(s[i].task))
}

/// What is due at `now`: first the jobs that come back, then the work that was
/// put off, in the order in which it came.
pub open spec fn due_jobs(s: ScheduleView, now: u64, reqs: Seq<ScheduleRequest>) -> Seq<Job> {
    job_if(Job::PollSg, now, s.last_poll_sg, POLL_SG_INTERVAL) + job_if(
        Job::MaintainConnections,
        now,
        s.last_maintain,
        MAINTAIN_CONNECTIONS_INTERVAL,
    ) + job_if(Job::KeepAliveDg, now, s.last_keepalive, KEEPALIVE_DG_INTERVAL) + job_if(
        Job::CleanupTunnels,
        now,
        s.last_cleanup_tunnels,
        CLEANUP_TUNNELS_INTERVAL,
    ) + job_if(Job::SyncContacts, now, s.last_sync_contacts, SYNC_CONTACTS_INTERVAL) + once_each(
        model::keep(s.pending + put_off(reqs, now), ripe(now)),
    )
}

/// The schedule once what is due was handed out.
pub open spec fn after(s: ScheduleView, now: u64, reqs: Seq<ScheduleRequest>) -> ScheduleView {
    ScheduleView {
        last_poll_sg: ran(now, s.last_poll_sg, POLL_SG_INTERVAL),
        last_maintain: ran(now, s.last_maintain, MAINTAIN_CONNECTIONS_INTERVAL),
        last_keepalive: ran(now, s.last_keepalive, KEEPALIVE_DG_INTERVAL),
        last_cleanup_tunnels: ran(now, s.last_cleanup_tunnels, CLEANUP_TUNNELS_INTERVAL),
        last_sync_contacts: ran(now, s.last_sync_contacts, SYNC_CONTACTS_INTERVAL),
        pending: model::keep(s.pending + put_off(reqs, now), unripe(now)),
    }
}

fn push_if(out: &mut Vec<Job>, job: Job, now: u64, last: u64, interval: u64) -> (r: u64)
    ensures
        final(out)@ == old(out)@ + job_if(job, now, last, interval),
        r == ran(now, last, interval),
{
    if due(now, last, interval) {
        out.push(job);
        assert(out@ =~= old(out)@ + seq![job]);
        now
    } else {
        assert(out@ =~= old(out)@ + Seq::<Job>::empty());
        last
    }
}

impl Schedule {
    /// A schedule that starts at `now`.
    pub fn new(now: u64) -> (r: Schedule)
        ensures
            r@ == (ScheduleView {
                last_poll_sg: now,
                last_maintain: now,
                last_keepalive: now,
                last_cleanup_tunnels: now,
                last_sync_contacts: now,
                pending: Seq::empty(),
            }),
    {
        let pending: Vec<Put> = Vec::new();
        assert(pending@ =~= Seq::empty());
        Schedule {
            last_poll_sg: now,
            last_maintain: now,
            last_keepalive: now,
            last_cleanup_tunnels: now,
            last_sync_contacts: now,
            pending,
        }
    }

    /// Takes up new wishes and hands out what is due.
    pub fn tick(&mut self, now: u64, requests: &Vec<ScheduleRequest>) -> (r: Vec<Job>)
        requires
            forall|i: int|
                0 <= i < requests@.len() ==> now + (#[trigger] requests@[i]).delay_ms <= u64::MAX,
        ensures
            r@ == due_jobs(old(self)@, now, requests@),
            final(self)@ == after(old(self)@, now, requests@),
    {
        let ghost reqs = requests@;
        let ghost start = self.pending@;
        let ghost puts = put_off(reqs, now);
        let mut i: usize = 0;
        assert(start + puts.take(0) =~= start);
        while i < requests.len()
            invariant
                i <= requests@.len(),
                reqs == requests@,
                puts == put_off(reqs, now),
                self.pending@ == start + puts.take(i as int),
                self.last_poll_sg == old(self).last_poll_sg,
                self.last_maintain == old(self).last_maintain,
                self.last_keepalive == old(self).last_keepalive,
                self.last_cleanup_tunnels == old(self).last_cleanup_tunnels,
                self.last_sync_contacts == old(self).last_sync_contacts,
                forall|j: int|
                    0 <= j < requests@.len() ==> now + (#[trigger] requests@[j]).delay_ms
                        <= u64::MAX,
            decreases requests@.len() - i,
        {
            let q = requests[i];
            self.pending.push(Put { due_at: now + q.delay_ms, task: q.task });
            proof {
                model::lemma_add_take_push(start, puts, i as int);
            }
            i += 1;
        }
        assert(puts.take(puts.len() as int) =~= puts);
        let ghost all = self.pending@;
        let mut out: Vec<Job> = Vec::new();
        let ghost none = out@;
        self.last_poll_sg =
        push_if(&mut out, Job::PollSg, now, self.last_poll_sg, POLL_SG_INTERVAL);
        assert(out@ =~= job_if(Job::PollSg, now, old(self).last_poll_sg, POLL_SG_INTERVAL));
        self.last_maintain =
        push_if(
            &mut out,
            Job::MaintainConnections,
            now,
            self.last_maintain,
            MAINTAIN_CONNECTIONS_INTERVAL,
        );
        self.last_keepalive =
        push_if(&mut out, Job::KeepAliveDg, now, self.last_keepalive, KEEPALIVE_DG_INTERVAL);
        self.last_cleanup_tunnels =
        push_if(
            &mut out,
            Job::CleanupTunnels,
            now,
            self.last_cleanup_tunnels,
            CLEANUP_TUNNELS_INTERVAL,
        );
        self.last_sync_contacts =
        push_if(
            &mut out,
            Job::SyncContacts,
            now,
            self.last_sync_contacts,
            SYNC_CONTACTS_INTERVAL,
        );
        let ghost front = out@;
        let mut remaining: Vec<Put> = Vec::new();
        let n: usize = self.pending.len();
        let mut k: usize = 0;
        assert(all.take(0) =~= Seq::empty());
        assert(remaining@ =~= model::keep(all.take(0), unripe(now)));
        assert(front + once_each(model::keep(all.take(0), ripe(now))) =~= front);
        while k < n
            invariant
                k <= n == self.pending@.len(),
                all == self.pending@,
                remaining@ == model::keep(all.take(k as int), unripe(now)),
                out@ == front + once_each(model::keep(all.take(k as int), ripe(now))),
            decreases n - k,
        {
            proof {
                model::lemma_keep_step(all, ripe(now), k as int);
                model::lemma_keep_step(all, unripe(now), k as int);
            }
            let p = self.pending[k];
            if now >= p.due_at {
                let ghost before = model::keep(all.take(k as int), ripe(now));
                out.push(Job::Once(p.task));
                assert(out@ =~= front + once_each(before.push(p)));
            } else {
                remaining.push(p);
            }
            k += 1;
        }
        assert(all.take(all.len() as int) =~= all);
        self.pending = remaining;
        out
    }
}

/// Work that was put off is done once it is due, and kept until then.
pub proof fn law_nothing_is_forgotten(
    s: ScheduleView,
    now: u64,
    reqs: Seq<ScheduleRequest>,
    p: Put,
)
    requires
        (s.pending + put_off(reqs, now)).contains(p),
    ensures
        p.due_at <= now ==> due_jobs(s, now, reqs).contains(Job::Once(p.task)),
        p.due_at <= now ==> !after(s, now, reqs).pending.contains(p),
        p.due_at > now ==> after(s, now, reqs).pending.contains(p),
{
    let all = s.pending + put_off(reqs, now);
    model::lemma_keep_contains(all, unripe(now), p);
    model::lemma_keep_contains(all, ripe(now), p);
    if p.due_at <= now {
        let kept = model::keep(all, ripe(now));
        let i = choose|i: int| 0 <= i < kept.len() && kept[i] == p;
        let jobs = due_jobs(s, now, reqs);
        let off = jobs.len() - kept.len();
        assert(once_each(kept)[i] == Job::Once(p.task));
        assert(jobs[off + i] == Job::Once(p.task));
    }
}

/// A job that ran does not come back before its interval has passed again.
pub proof fn law_not_too_often(now: u64, last: u64, interval: u64, later: u64)
    requires
        is_due(now, last, interval),
        later < now + interval,
    ensures
        !is_due(later, ran(now, last, interval), interval),
{
}

/// A job that comes back is handed out exactly if its interval has passed since it
/// ran last, and then counts as run now; else it is as it was.
pub open spec fn comes_round(
    jobs: Seq<Job>,
    job: Job,
    now: u64,
    last: u64,
    interval: u64,
    after: u64,
) -> bool {
    &&& jobs.contains(job) <==> now >= last + interval
    &&& after == if now >= last + interval {
        now
    } else {
        last
    }
}

/// Each job comes round: polling every half minute, keepalives every twenty
/// seconds, sessions and tunnels every five minutes, contacts every day.
pub proof fn law_jobs_come_round(s: ScheduleView, now: u64, reqs: Seq<ScheduleRequest>)
    ensures
        ({
            let jobs = due_jobs(s, now, reqs);
            let t = after(s, now, reqs);
            &&& comes_round(jobs, Job::PollSg, now, s.last_poll_sg, 30_000, t.last_poll_sg)
            &&& comes_round(
                jobs,
                Job::MaintainConnections,
                now,
                s.last_maintain,
                300_000,
                t.last_maintain,
            )
            &&& comes_round(jobs, Job::KeepAliveDg, now, s.last_keepalive, 20_000, t.last_keepalive)
            &&& comes_round(
                jobs,
                Job::CleanupTunnels,
                now,
                s.last_cleanup_tunnels,
                300_000,
                t.last_cleanup_tunnels,
            )
            &&& comes_round(
                jobs,
                Job::SyncContacts,
                now,
                s.last_sync_contacts,
                86_400_000,
                t.last_sync_contacts,
            )
        }),
{
    let a = job_if(Job::PollSg, now, s.last_poll_sg, POLL_SG_INTERVAL);
    let b = job_if(
        Job::MaintainConnections,
        now,
        s.last_maintain,
        MAINTAIN_CONNECTIONS_INTERVAL,
    );
    let c = job_if(Job::KeepAliveDg, now, s.last_keepalive, KEEPALIVE_DG_INTERVAL);
    let d = job_if(Job::CleanupTunnels, now, s.last_cleanup_tunnels, CLEANUP_TUNNELS_INTERVAL);
    let e = job_if(Job::SyncContacts, now, s.last_sync_contacts, SYNC_CONTACTS_INTERVAL);
    let f = once_each(model::keep(s.pending + put_off(reqs, now), ripe(now)));
    let jobs = due_jobs(s, now, reqs);
    assert(jobs == a + b + c + d + e + f);
    let la = a.len() as int;
    let lb = la + b.len();
    let lc = lb + c.len();
    let ld = lc + d.len();
    if a.len() > 0 {
        assert(jobs[0] == Job::PollSg);
    }
    if b.len() > 0 {
        assert(jobs[la] == Job::MaintainConnections);
    }
    if c.len() > 0 {
        assert(jobs[lb] == Job::KeepAliveDg);
    }
    if d.len() > 0 {
        assert(jobs[lc] == Job::CleanupTunnels);
    }
    if e.len() > 0 {
        assert(jobs[ld] == Job::SyncContacts);
    }
}

/// Work that is put off is done when its time has come, and not before.
pub proof fn law_put_off_until_then(
    s: ScheduleView,
    now: u64,
    reqs: Seq<ScheduleRequest>,
    i: int,
)
    requires
        0 <= i < reqs.len(),
        now + reqs[i].delay_ms <= u64::MAX,
    ensures
        reqs[i].delay_ms == 0 ==> due_jobs(s, now, reqs).contains(Job::Once(reqs[i].task)),
        reqs[i].delay_ms > 0 ==> after(s, now, reqs).pending.contains(
            Put { due_at: (now + reqs[i].delay_ms) as u64, task: reqs[i].task },
        ),
{
    let p = Put { due_at: (now + reqs[i].delay_ms) as u64, task: reqs[i].task };
    let all = s.pending + put_off(reqs, now);
    assert(all[s.pending.len() + i] == p);
    law_nothing_is_forgotten(s, now, reqs, p);
}

} // verus!

//! The client: what it makes of the servers' messages, and the tournament it
//! drives.
use vstd::prelude::*;

use crate::config::{Config, TestType};
use crate::proto::{Assignment, AssignmentView, Msg, TargetView};
use crate::server::WINDOW_NS;
use crate::testplan;
use crate::text;

verus! {

/// Traffic time per round of pairs, in seconds.
pub const PAIR_ROUND_SECS: u64 = 1;

/// Time that a server gets after the traffic of a round to report its window, in
/// milliseconds.
pub const ROUND_SLACK_MS: u64 = 100;

/// What the client does with a message of a server.
#[derive(Debug, Clone)]
pub enum PumpAction<W> {
    /// Count an acknowledged start.
    CountStart,
    /// The server has stopped; read no more.
    Stopped,
    /// Show and store a window.
    Store(W),
    /// Report an error of the server, and read on.
    Report(String),
    /// Report an error of the server, and give up: it never started.
    Fail(String),
    /// Report a message that does not belong here, and read on.
    Unexpected(Msg<W>),
}

/// Whether a server has ever acknowledged a start, after this message.
pub open spec fn started_after<W>(started: bool, msg: Msg<W>) -> bool {
    started || match msg {
        Msg::Ack { cmd } => cmd@ == "start"@,
        _ => false,
    }
}

/// The action is the right one for the message.
pub open spec fn pump<W>(started: bool, msg: Msg<W>, action: PumpAction<W>) -> bool {
    match msg {
        Msg::Ack { cmd } if cmd@ == "start"@ => action is CountStart,
        Msg::Ack { cmd } if cmd@ == "stop"@ => action is Stopped,
        Msg::Metrics { window } => action == PumpAction::Store(window),
        Msg::Error { message } => if started {
            action == PumpAction::<W>::Report(message)
        } else {
            action == PumpAction::<W>::Fail(message)
        },
        _ => action == PumpAction::Unexpected(msg),
    }
}

/// A message came from a server; says what to do with it.
pub fn on_message<W>(started: &mut bool, msg: Msg<W>) -> (res: PumpAction<W>)
    ensures
        *final(started) == started_after(*old(started), msg),
        pump(*old(started), msg, res),
{
    proof {
        reveal_strlit("start");
        reveal_strlit("stop");
        assert("start"@[2] == 'a');
        assert("stop"@[2] == 'o');
    }
    match msg {
        Msg::Ack { cmd } => {
            if text::same_text(cmd.as_str(), "start") {
                *started = true;
                PumpAction::CountStart
            } else if text::same_text(cmd.as_str(), "stop") {
                PumpAction::Stopped
            } else {
                PumpAction::Unexpected(Msg::Ack { cmd })
            }
        },
        Msg::Metrics { window } => PumpAction::Store(window),
        Msg::Error { message } => {
            if *started {
                PumpAction::Report(message)
            } else {
                PumpAction::Fail(message)
            }
        },
        other => PumpAction::Unexpected(other),
    }
}

/// How the client waits for the servers to acknowledge a round.
#[derive(Debug, Clone, Copy, PartialEq, Eq, Structural)]
pub enum AckWait {
    /// All have; let the traffic run.
    Ready,
    /// The run is over.
    Cancelled,
    /// Not all have in time; let the traffic run all the same.
    Late,
    /// Look again a little later.
    Again,
}

/// How to wait for the servers to acknowledge a round.
pub open spec fn ack_wait(acks: u64, need: u64, cancelled: bool, past_deadline: bool) -> AckWait {
    if acks >= need {
        AckWait::Ready
    } else if cancelled {
        AckWait::Cancelled
    } else if past_deadline {
        AckWait::Late
    } else {
        AckWait::Again
    }
}

/// The wait is over exactly when all have acknowledged, the run was cancelled or the time
/// is up, and it says which came first in this order. One more acknowledgement never makes
/// it longer.
pub proof fn law_waits_for_acks_end(acks: u64, need: u64, cancelled: bool, past_deadline: bool)
    ensures
        ack_wait(acks, need, cancelled, past_deadline) == AckWait::Again <==> acks < need
            && !cancelled && !past_deadline,
        ack_wait(acks, need, cancelled, past_deadline) == AckWait::Ready <==> acks >= need,
        ack_wait(acks, need, cancelled, past_deadline) == AckWait::Cancelled <==> acks < need
            && cancelled,
        acks < u64::MAX && ack_wait(acks, need, cancelled, past_deadline) == AckWait::Ready
            ==> ack_wait((acks + 1) as u64, need, cancelled, past_deadline) == AckWait::Ready,
{
}

/// How to wait for the servers to acknowledge a round.
pub fn wait_for_acks(acks: u64, need: u64, cancelled: bool, past_deadline: bool) -> (res: AckWait)
    ensures
        res == ack_wait(acks, need, cancelled, past_deadline),
        res == (if acks >= need {
            AckWait::Ready
        } else if cancelled {
            AckWait::Cancelled
        } else if past_deadline {
            AckWait::Late
        } else {
            AckWait::Again
        }),
{
    if acks >= need {
        AckWait::Ready
    } else if cancelled {
        AckWait::Cancelled
    } else if past_deadline {
        AckWait::Late
    } else {
        AckWait::Again
    }
}

/// How long a round of pairs is played, in milliseconds.
#[derive(Debug, Clone, Copy, PartialEq, Eq, Structural)]
pub struct RoundTime {
    /// The time for traffic.
    pub traffic_ms: u64,
    /// The time after it in which the servers report their windows.
    pub slack_ms: u64,
}

/// How long a round of pairs is played.
pub fn round_time() -> (res: RoundTime)
    ensures
        res.traffic_ms == PAIR_ROUND_SECS * 1000,
        res.slack_ms == ROUND_SLACK_MS,
        res.traffic_ms == 1000,
        res.slack_ms == 100,
        res.traffic_ms * 1_000_000 == WINDOW_NS,
{
    RoundTime { traffic_ms: PAIR_ROUND_SECS * 1000, slack_ms: ROUND_SLACK_MS }
}

impl RoundTime {
    /// How long the client lets the round run.
    pub fn total_ms(&self) -> (res: u64)
        requires
            self.traffic_ms + self.slack_ms <= u64::MAX,
        ensures
            res == self.traffic_ms + self.slack_ms,
    {
        self.traffic_ms + self.slack_ms
    }
}

/// A round-robin schedule that is played again and again.
#[derive(Debug, Clone)]
pub struct Tournament {
    pub hosts: Vec<String>,
    pub rounds: Vec<Vec<(String, String)>>,
    /// The pass over the schedule that the round belongs to, counted from 1.
    pub number: u64,
    /// The round to be played, counted from 0.
    pub round: usize,
}

/// The assignments with the addresses filled in.
pub open spec fn addressed(plan: Seq<AssignmentView>, addrs: Seq<Seq<char>>) -> Seq<AssignmentView> {
    plan.map_values(|a: AssignmentView| testplan::with_addresses(a, addrs))
}

/// Every host sends to every other one, at the given addresses.
pub fn mesh_assignments(hosts: &[String], addrs: &[String]) -> (res: Vec<Assignment>)
    requires
        hosts@.len() == addrs@.len(),
        hosts@.len() <= u32::MAX,
    ensures
        testplan::plan_view(res@) == addressed(
            testplan::mesh_plan(text::texts(hosts@)),
            text::texts(addrs@),
        ),
{
    let ghost names = text::texts(hosts@);
    let mut plan = testplan::assignments_mesh(hosts);
    proof {
        let none = Seq::<testplan::NamePair>::empty();
        assert forall|i: int| 0 <= i < plan@.len() implies testplan::ids_below(
            (#[trigger] plan@[i])@,
            addrs@.len() as int,
        ) by {
            assert(testplan::plan_view(plan@).len() == names.len());
            assert(testplan::plan_view(plan@)[i] == testplan::mesh_plan(names)[i]);
            testplan::law_plans_can_be_filled(names, none, i);
        }
    }
    testplan::fill_resolved(&mut plan, addrs);
    assert(testplan::plan_view(plan@) =~= addressed(
        testplan::mesh_plan(names),
        text::texts(addrs@),
    ));
    plan
}

/// The round after this one of so many, and whether the schedule begins anew with it.
pub open spec fn next_round(round: int, rounds: int) -> (int, bool) {
    if round + 1 < rounds {
        (round + 1, false)
    } else {
        (0, true)
    }
}

/// The pass and the round after `k` rounds of so many were played; passes count from 1.
pub open spec fn turn_at(rounds: int, k: nat) -> (int, int)
    decreases k,
{
    if k == 0 {
        (1, 0)
    } else {
        let (pass, round) = turn_at(rounds, (k - 1) as nat);
        let (next, again) = next_round(round, rounds);
        (if again {
            pass + 1
        } else {
            pass
        }, next)
    }
}

/// Every round of the schedule is played once in a pass, in order, and then the next pass
/// begins.
pub proof fn law_rounds_come_in_turn(rounds: int, k: nat)
    requires
        rounds > 0,
    ensures
        turn_at(rounds, k) == (1 + k as int / rounds, k as int % rounds),
    decreases k,
{
    if k == 0 {
        vstd::arithmetic::div_mod::lemma_small_mod(0, rounds as nat);
        vstd::arithmetic::div_mod::lemma_basic_div(0, rounds);
    } else {
        let j = k - 1;
        law_rounds_come_in_turn(rounds, j as nat);
        let (q, r) = (j / rounds, j % rounds);
        vstd::arithmetic::div_mod::lemma_fundamental_div_mod(j, rounds);
        vstd::arithmetic::div_mod::lemma_mod_bound(j, rounds);
        if r + 1 < rounds {
            assert(k == q * rounds + (r + 1)) by (nonlinear_arith)
                requires
                    k - 1 == rounds * q + r,
            ;
            vstd::arithmetic::div_mod::lemma_fundamental_div_mod_converse(
                k as int,
                rounds,
                q,
                r + 1,
            );
        } else {
            assert(k == (q + 1) * rounds + 0) by (nonlinear_arith)
                requires
                    k - 1 == rounds * q + r,
                    r + 1 == rounds,
            ;
            vstd::arithmetic::div_mod::lemma_fundamental_div_mod_converse(
                k as int,
                rounds,
                q + 1,
                0,
            );
        }
    }
}

/// The host after this one of so many; `None` after the last.
pub open spec fn next_host(i: int, hosts: int) -> Option<int> {
    if i + 1 < hosts {
        Some(i + 1)
    } else {
        None
    }
}

/// The host whose turn it is after `k` of so many had theirs, from the first on.
pub open spec fn host_at(hosts: int, k: nat) -> Option<int>
    decreases k,
{
    if k == 0 {
        Some(0)
    } else {
        match host_at(hosts, (k - 1) as nat) {
            Some(i) => next_host(i, hosts),
            None => None,
        }
    }
}

/// Every host has its turn once, in the order of the list, and after the last one there is
/// none.
pub proof fn law_hosts_come_in_turn(hosts: int, k: nat)
    requires
        hosts > 0,
    ensures
        host_at(hosts, k) == if k < hosts {
            Some(k as int)
        } else {
            None
        },
    decreases k,
{
    if k > 0 {
        law_hosts_come_in_turn(hosts, (k - 1) as nat);
    }
}

impl Tournament {
    /// The rounds are the schedule of the hosts.
    pub open spec fn wf(self) -> bool {
        &&& 2 <= self.hosts@.len() <= u32::MAX
        &&& testplan::rounds_names(self.rounds@) == testplan::schedule(text::texts(self.hosts@))
        &&& self.round < self.rounds@.len()
    }

    /// The pairs of the round to be played.
    pub open spec fn current(self) -> Seq<testplan::NamePair> {
        testplan::schedule(text::texts(self.hosts@))[self.round as int]
    }

    /// Begins a tournament.
    pub fn new(hosts: &[String]) -> (res: Tournament)
        requires
            2 <= hosts@.len() <= u32::MAX,
            hosts@.len() < usize::MAX,
        ensures
            res.wf(),
            text::texts(res.hosts@) == text::texts(hosts@),
            (res.number as int, res.round as int) == turn_at(res.rounds@.len() as int, 0),
            res.number == 1,
            res.round == 0,
    {
        let rounds = testplan::round_robin_rounds(hosts);
        let n: usize = hosts.len();
        let mut names: Vec<String> = Vec::new();
        let mut i: usize = 0;
        assert(text::texts(names@) =~= text::texts(hosts@).take(0));
        while i < n
            invariant
                n == hosts@.len(),
                i <= n,
                text::texts(names@) == text::texts(hosts@).take(i as int),
            decreases n - i,
        {
            let ghost before = text::texts(names@);
            names.push(hosts[i].clone());
            assert(text::texts(names@) =~= before.push(hosts@[i as int]@));
            i += 1;
            assert(text::texts(names@) =~= text::texts(hosts@).take(i as int));
        }
        proof {
            assert(text::texts(names@) =~= text::texts(hosts@));
            assert(names@.len() == text::texts(names@).len());
            testplan::law_schedule_shape(text::texts(hosts@));
            assert(rounds@.len() == testplan::rounds_names(rounds@).len());
        }
        Tournament { hosts: names, rounds, number: 1, round: 0 }
    }

    /// What each host does in the round to be played, with the hosts' addresses.
    pub fn assignments(&self, addrs: &[String]) -> (res: Vec<Assignment>)
        requires
            self.wf(),
            addrs@.len() == self.hosts@.len(),
        ensures
            testplan::plan_view(res@) == addressed(
                testplan::pairs_plan(text::texts(self.hosts@), self.current()),
                text::texts(addrs@),
            ),
    {
        let ghost names = text::texts(self.hosts@);
        let pairs = &self.rounds[self.round];
        proof {
            testplan::law_schedule_pairs_known(names, self.round as int);
            assert(testplan::rounds_names(self.rounds@)[self.round as int]
                == testplan::round_names(pairs@));
        }
        let mut plan = testplan::assignments_for_pairs(self.hosts.as_slice(), pairs.as_slice());
        proof {
            assert forall|i: int| 0 <= i < plan@.len() implies testplan::ids_below(
                (#[trigger] plan@[i])@,
                addrs@.len() as int,
            ) by {
                assert(testplan::plan_view(plan@).len() == names.len());
                assert(testplan::plan_view(plan@)[i] == testplan::pairs_plan(
                    names,
                    self.current(),
                )[i]);
                testplan::law_plans_can_be_filled(names, self.current(), i);
            }
        }
        testplan::fill_resolved(&mut plan, addrs);
        assert(testplan::plan_view(plan@) =~= addressed(
            testplan::pairs_plan(names, self.current()),
            text::texts(addrs@),
        ));
        plan
    }

    /// Goes on to the next round; after the last one the schedule begins anew.
    /// Says whether it does.
    pub fn advance(&mut self) -> (res: bool)
        requires
            old(self).wf(),
            old(self).round + 1 == old(self).rounds@.len() ==> old(self).number < u64::MAX,
        ensures
            final(self).wf(),
            final(self).hosts == old(self).hosts,
            (final(self).round as int, res) == next_round(
                old(self).round as int,
                old(self).rounds@.len() as int,
            ),
            res == (old(self).round + 1 == old(self).rounds@.len()),
            res ==> final(self).round == 0 && final(self).number == old(self).number + 1,
            !res ==> final(self).round == old(self).round + 1 && final(self).number == old(
                self,
            ).number,
    {
        let again = self.rounds.len() - self.round <= 1;
        if again {
            self.round = 0;
            self.number = self.number + 1;
        } else {
            self.round = self.round + 1;
        }
        again
    }

    /// How many rounds there are, how many pairs the first one has, and how many
    /// pairs of hosts there are at all.
    pub fn summary(&self) -> (res: (usize, usize, usize))
        requires
            self.wf(),
            self.hosts@.len() * (self.hosts@.len() - 1) <= usize::MAX,
        ensures
            res.0 == self.rounds@.len(),
            res.1 == testplan::schedule(text::texts(self.hosts@))[0].len(),
            res.2 == self.hosts@.len() * (self.hosts@.len() - 1) / 2,
    {
        let n: usize = self.hosts.len();
        proof {
            let names = testplan::rounds_names(self.rounds@);
            assert(names[0] == testplan::round_names(self.rounds@[0]@));
        }
        (self.rounds.len(), self.rounds[0].len(), n * (n - 1) / 2)
    }
}

/// The rounds of a schedule have room for every pair of hosts, and for no more:
/// as many rounds times as many pairs in each as there are pairs of hosts.
pub proof fn law_rounds_hold_all_pairs(hosts: Seq<Seq<char>>)
    requires
        2 <= hosts.len(),
    ensures
        testplan::schedule(hosts).len() * testplan::schedule(hosts)[0].len() == hosts.len() * (
        hosts.len() - 1) / 2,
{
    testplan::law_schedule_shape(hosts);
    let n = hosts.len() as int;
    let h = n / 2;
    if n % 2 == 0 {
        assert((n - 1) * h == n * (n - 1) / 2) by (nonlinear_arith)
            requires
                n == 2 * h,
        ;
    } else {
        assert(n * h == n * (n - 1) / 2) by (nonlinear_arith)
            requires
                n == 2 * h + 1,
        ;
    }
}

/// How far a run has come. Hosts go by their place in the list.
#[derive(Debug, Clone, Copy, PartialEq, Eq, Structural)]
pub enum RunPhase {
    /// The address of this host is to be resolved.
    Resolving(usize),
    /// This host is to be connected to.
    Connecting(usize),
    /// This host is to be told to start.
    Starting(usize),
    /// All hosts have been told to start.
    Running,
    /// This host is to be told to stop.
    Stopping(usize),
    /// All hosts have been told to stop.
    Draining,
    /// The run is over.
    Over,
}

/// A run: its hosts, what is known of them, and what they are told.
#[derive(Debug, Clone)]
pub struct Run {
    pub test_type: TestType,
    pub tournament: Tournament,
    /// The addresses that were resolved, in the order of the hosts.
    pub addrs: Vec<String>,
    /// What the hosts are told to do, in the order of the hosts.
    pub plan: Vec<Assignment>,
    pub phase: RunPhase,
}

impl Run {
    /// The names of the hosts.
    pub open spec fn names(self) -> Seq<Seq<char>> {
        text::texts(self.tournament.hosts@)
    }

    /// What the hosts are to be told to do now.
    pub open spec fn plan_now(self) -> Seq<AssignmentView> {
        addressed(
            match self.test_type {
                TestType::Mesh => testplan::mesh_plan(self.names()),
                TestType::Pairs => testplan::pairs_plan(self.names(), self.tournament.current()),
            },
            text::texts(self.addrs@),
        )
    }

    /// The phase is one of these hosts, addresses are known as far as they were
    /// resolved, and the plan is made when it is needed.
    pub open spec fn wf(self) -> bool {
        let n = self.tournament.hosts@.len();
        &&& self.tournament.wf()
        &&& match self.phase {
            RunPhase::Resolving(i) => i < n && self.addrs@.len() == i,
            RunPhase::Connecting(i) => i < n && self.addrs@.len() == n,
            RunPhase::Starting(i) => i < n && self.addrs@.len() == n && testplan::plan_view(
                self.plan@,
            ) == self.plan_now(),
            RunPhase::Running => self.addrs@.len() == n,
            RunPhase::Stopping(i) => i < n,
            _ => true,
        }
    }

    /// Nothing but the phase and the plan is different.
    pub open spec fn same_run(self, other: Run) -> bool {
        &&& self.test_type == other.test_type
        &&& self.tournament == other.tournament
        &&& self.addrs == other.addrs
    }

    /// Begins a run.
    pub fn new(cfg: &Config) -> (res: Run)
        requires
            2 <= cfg.hostlist@.len() <= u32::MAX,
            cfg.hostlist@.len() < usize::MAX,
        ensures
            res.wf(),
            res.phase == RunPhase::Resolving(0),
            res.test_type == cfg.test_type,
            res.names() == text::texts(cfg.hostlist@),
            res.tournament.number == 1,
            res.tournament.round == 0,
    {
        Run {
            test_type: cfg.test_type,
            tournament: Tournament::new(cfg.hostlist.as_slice()),
            addrs: Vec::new(),
            plan: Vec::new(),
            phase: RunPhase::Resolving(0),
        }
    }

    /// The address of the host was resolved; the next one is to be, or the first
    /// is to be connected to.
    pub fn on_resolved(&mut self, addr: String)
        requires
            old(self).wf(),
            old(self).phase is Resolving,
        ensures
            final(self).wf(),
            final(self).test_type == old(self).test_type,
            final(self).tournament == old(self).tournament,
            final(self).addrs@ == old(self).addrs@.push(addr),
            final(self).phase == (match next_host(
                old(self).phase->Resolving_0 as int,
                old(self).tournament.hosts@.len() as int,
            ) {
                Some(i) => RunPhase::Resolving(i as usize),
                None => RunPhase::Connecting(0),
            }),
            final(self).phase == ({
                let i = old(self).phase->Resolving_0;
                if i + 1 < old(self).tournament.hosts@.len() {
                    RunPhase::Resolving((i + 1) as usize)
                } else {
                    RunPhase::Connecting(0)
                }
            }),
    {
        self.addrs.push(addr);
        let known: usize = self.addrs.len();
        self.phase = if known < self.tournament.hosts.len() {
            RunPhase::Resolving(known)
        } else {
            RunPhase::Connecting(0)
        };
    }

    fn make_plan(&mut self)
        requires
            old(self).tournament.wf(),
            old(self).addrs@.len() == old(self).tournament.hosts@.len(),
        ensures
            final(self).same_run(*old(self)),
            final(self).phase == RunPhase::Starting(0),
            final(self).wf(),
    {
        self.plan = match self.test_type {
            TestType::Mesh => mesh_assignments(
                self.tournament.hosts.as_slice(),
                self.addrs.as_slice(),
            ),
            TestType::Pairs => self.tournament.assignments(self.addrs.as_slice()),
        };
        self.phase = RunPhase::Starting(0);
    }

    /// The host was connected to; the next one is to be, or the test is to be
    /// started. A tournament that was cancelled before it began is stopped.
    pub fn on_connected(&mut self, cancelled: bool)
        requires
            old(self).wf(),
            old(self).phase is Connecting,
        ensures
            final(self).wf(),
            final(self).same_run(*old(self)),
            final(self).phase == (match next_host(
                old(self).phase->Connecting_0 as int,
                old(self).tournament.hosts@.len() as int,
            ) {
                Some(i) => RunPhase::Connecting(i as usize),
                None => if cancelled && old(self).test_type == TestType::Pairs {
                    RunPhase::Stopping(0)
                } else {
                    RunPhase::Starting(0)
                },
            }),
            final(self).phase == ({
                let i = old(self).phase->Connecting_0;
                if i + 1 < old(self).tournament.hosts@.len() {
                    RunPhase::Connecting((i + 1) as usize)
                } else if cancelled && old(self).test_type == TestType::Pairs {
                    RunPhase::Stopping(0)
                } else {
                    RunPhase::Starting(0)
                }
            }),
    {
        if let RunPhase::Connecting(i) = self.phase {
            if i + 1 < self.tournament.hosts.len() {
                self.phase = RunPhase::Connecting(i + 1);
            } else if cancelled && self.test_type == TestType::Pairs {
                self.phase = RunPhase::Stopping(0);
            } else {
                self.make_plan();
            }
        }
    }

    /// The host was told to start; the next one is to be, or all have been.
    pub fn on_started(&mut self)
        requires
            old(self).wf(),
            old(self).phase is Starting,
        ensures
            final(self).wf(),
            final(self).same_run(*old(self)),
            final(self).plan == old(self).plan,
            final(self).phase == (match next_host(
                old(self).phase->Starting_0 as int,
                old(self).tournament.hosts@.len() as int,
            ) {
                Some(i) => RunPhase::Starting(i as usize),
                None => RunPhase::Running,
            }),
            final(self).phase == ({
                let i = old(self).phase->Starting_0;
                if i + 1 < old(self).tournament.hosts@.len() {
                    RunPhase::Starting((i + 1) as usize)
                } else {
                    RunPhase::Running
                }
            }),
    {
        if let RunPhase::Starting(i) = self.phase {
            self.phase = if i + 1 < self.tournament.hosts.len() {
                RunPhase::Starting(i + 1)
            } else {
                RunPhase::Running
            };
        }
    }

    /// The mesh was cancelled, or the round has been played. A tournament goes on
    /// with the next round; one that was cancelled stays where it is, and is
    /// stopped. Says whether the schedule begins anew.
    pub fn on_played(&mut self, cancelled: bool) -> (res: bool)
        requires
            old(self).wf(),
            old(self).phase == RunPhase::Running,
            old(self).test_type == TestType::Pairs && !cancelled && old(self).tournament.round + 1
                == old(self).tournament.rounds@.len() ==> old(self).tournament.number < u64::MAX,
        ensures
            final(self).wf(),
            final(self).test_type == old(self).test_type,
            final(self).addrs == old(self).addrs,
            final(self).tournament.hosts == old(self).tournament.hosts,
            old(self).test_type == TestType::Mesh || cancelled ==> !res && final(self).phase
                == RunPhase::Stopping(0) && final(self).tournament == old(self).tournament,
            old(self).test_type == TestType::Pairs && !cancelled ==> {
                &&& final(self).phase == RunPhase::Starting(0)
                &&& (final(self).tournament.round as int, res) == next_round(
                    old(self).tournament.round as int,
                    old(self).tournament.rounds@.len() as int,
                )
                &&& res == (old(self).tournament.round + 1 == old(self).tournament.rounds@.len())
                &&& res ==> final(self).tournament.round == 0 && final(self).tournament.number
                    == old(self).tournament.number + 1
                &&& !res ==> final(self).tournament.round == old(self).tournament.round + 1
                    && final(self).tournament.number == old(self).tournament.number
            },
    {
        if cancelled || self.test_type == TestType::Mesh {
            self.phase = RunPhase::Stopping(0);
            return false;
        }
        let again = self.tournament.advance();
        self.make_plan();
        again
    }

    /// The host was told to stop, or could not be told; the next one is to be, or
    /// all have been.
    pub fn on_stopped(&mut self)
        requires
            old(self).wf(),
            old(self).phase is Stopping,
        ensures
            final(self).wf(),
            final(self).same_run(*old(self)),
            final(self).phase == (match next_host(
                old(self).phase->Stopping_0 as int,
                old(self).tournament.hosts@.len() as int,
            ) {
                Some(i) => RunPhase::Stopping(i as usize),
                None => RunPhase::Draining,
            }),
            final(self).phase == ({
                let i = old(self).phase->Stopping_0;
                if i + 1 < old(self).tournament.hosts@.len() {
                    RunPhase::Stopping((i + 1) as usize)
                } else {
                    RunPhase::Draining
                }
            }),
    {
        if let RunPhase::Stopping(i) = self.phase {
            self.phase = if i + 1 < self.tournament.hosts.len() {
                RunPhase::Stopping(i + 1)
            } else {
                RunPhase::Draining
            };
        }
    }

    /// The hosts have acknowledged the stop, or the time for it is over.
    pub fn on_drained(&mut self)
        requires
            old(self).wf(),
            old(self).phase == RunPhase::Draining,
        ensures
            final(self).wf(),
            final(self).same_run(*old(self)),
            final(self).phase == RunPhase::Over,
    {
        self.phase = RunPhase::Over;
    }
}

/// When a host is to be told to start, the plan has an assignment for it: under
/// its own name and number, to be bound to its own address.
pub proof fn law_hosts_get_their_own_part(run: Run, i: usize)
    requires
        run.wf(),
        run.phase == RunPhase::Starting(i),
    ensures
        i < run.plan@.len(),
        run.plan@[i as int]@.self_name == run.names()[i as int],
        run.plan@[i as int]@.self_id == i,
        run.plan@[i as int]@.bind == run.addrs@[i as int]@,
{
    assert(run.plan@.len() == testplan::plan_view(run.plan@).len());
    assert(testplan::plan_view(run.plan@)[i as int] == run.plan@[i as int]@);
    assert(run.plan_now()[i as int].self_id == i);
}

proof fn lemma_plan_part(run: Run, h: int)
    requires
        run.wf(),
        run.phase is Starting,
        0 <= h < run.tournament.hosts@.len(),
    ensures
        run.plan@.len() == run.tournament.hosts@.len(),
        ({
            let part = match run.test_type {
                TestType::Mesh => testplan::mesh_plan(run.names()),
                TestType::Pairs => testplan::pairs_plan(run.names(), run.tournament.current()),
            }[h];
            let told = run.plan@[h].targets@;
            &&& run.plan@[h]@ == testplan::with_addresses(part, text::texts(run.addrs@))
            &&& told.len() == part.targets.len()
            &&& forall|k: int|
                0 <= k < told.len() ==> (#[trigger] told[k])@ == (TargetView {
                    addr: text::texts(run.addrs@)[part.targets[k].id as int],
                    ..part.targets[k]
                })
        }),
        testplan::pairs_known(run.names(), run.tournament.current()),
{
    let view = testplan::plan_view(run.plan@);
    assert(view.len() == run.plan@.len());
    assert(view[h] == run.plan@[h]@);
    testplan::law_schedule_pairs_known(run.names(), run.tournament.round as int);
    let told = run.plan@[h].targets@;
    assert(run.plan@[h]@.targets.len() == told.len());
    assert forall|k: int| 0 <= k < told.len() implies run.plan@[h]@.targets[k] == (
    #[trigger] told[k])@ by {}
}

/// In every plan that a run hands out, mesh or pairs, each target of each host is
/// another host of the list, and its address is the one that was resolved for the
/// host of that name.
pub proof fn law_targets_have_their_own_address(run: Run, h: int, k: int)
    requires
        run.wf(),
        run.phase is Starting,
        run.names().no_duplicates(),
        0 <= h < run.plan@.len(),
        0 <= k < run.plan@[h].targets@.len(),
    ensures
        ({
            let t = run.plan@[h].targets@[k];
            &&& exists|j: int|
                0 <= j < run.tournament.hosts@.len() && #[trigger] run.tournament.hosts@[j]@
                    == t.name@
            &&& forall|j: int|
                0 <= j < run.tournament.hosts@.len() && #[trigger] run.tournament.hosts@[j]@
                    == t.name@ ==> t.addr@ == run.addrs@[j]@ && t.id == j && j != h
        }),
{
    let names = run.names();
    assert(testplan::plan_view(run.plan@).len() == run.plan@.len());
    lemma_plan_part(run, h);
    let t = run.plan@[h].targets@[k];
    testplan::law_targets_are_hosts(names, run.tournament.current(), h, k);
    let id = t.id as int;
    assert(t@.id == id);
    assert(names[id] == t.name@);
    assert(run.tournament.hosts@[id]@ == t.name@);
    assert(t.addr@ == run.addrs@[id]@);
    assert forall|j: int|
        0 <= j < run.tournament.hosts@.len() && #[trigger] run.tournament.hosts@[j]@
            == t.name@ implies t.addr@ == run.addrs@[j]@ && t.id == j && j != h by {
        assert(names[j] == names[id]);
        if j == h && run.test_type == TestType::Pairs {
            let pairs = run.tournament.current();
            let list = testplan::pairs_plan(names, pairs)[h].targets;
            testplan::lemma_partner_is_host(names, pairs, h, k);
            assert(list[k] == testplan::target_of(names, h));
            assert(list.contains(list[k]));
            testplan::lemma_never_alone(names, run.tournament.round as int, h);
        }
    }
}

/// In a mesh every host is told to send to every other host, once to each.
pub proof fn law_mesh_tells_every_host(run: Run, h: int, j: int)
    requires
        run.wf(),
        run.phase is Starting,
        run.test_type == TestType::Mesh,
        run.names().no_duplicates(),
        0 <= h < run.plan@.len(),
        0 <= j < run.plan@.len(),
        h != j,
    ensures
        run.plan@.len() == run.tournament.hosts@.len(),
        run.plan@[h].targets@.len() == run.tournament.hosts@.len() - 1,
        exists|k: int|
            0 <= k < run.plan@[h].targets@.len() && (#[trigger] run.plan@[h].targets@[k]).name@
                == run.tournament.hosts@[j]@,
{
    let names = run.names();
    assert(testplan::plan_view(run.plan@).len() == run.plan@.len());
    lemma_plan_part(run, h);
    testplan::law_mesh_reaches_all(names, h, j);
    let list = testplan::mesh_plan(names)[h].targets;
    let t = testplan::target_of(names, j);
    let k = choose|k: int| 0 <= k < list.len() && list[k] == t;
    assert(run.plan@[h].targets@[k]@.name == names[j]);
    assert(run.plan@[h].targets@[k].name@ == run.tournament.hosts@[j]@);
}

/// In a tournament a host is told to send to another exactly if a pair of the round
/// joins the two, and to one host at most.
pub proof fn law_pairs_tell_the_partner(run: Run, h: int, j: int)
    requires
        run.wf(),
        run.phase is Starting,
        run.test_type == TestType::Pairs,
        run.names().no_duplicates(),
        0 <= h < run.plan@.len(),
        0 <= j < run.plan@.len(),
    ensures
        run.plan@.len() == run.tournament.hosts@.len(),
        run.plan@[h].targets@.len() <= 1,
        ({
            let round = run.tournament.rounds@[run.tournament.round as int]@;
            let (a, b) = (run.tournament.hosts@[h]@, run.tournament.hosts@[j]@);
            (exists|k: int|
                0 <= k < run.plan@[h].targets@.len() && (#[trigger] run.plan@[h].targets@[k]).name@
                    == b) <==> (exists|e: int|
                0 <= e < round.len() && {
                    let p = #[trigger] round[e];
                    p.0@ == a && p.1@ == b || p.0@ == b && p.1@ == a
                })
        }),
{
    let names = run.names();
    let r = run.tournament.round as int;
    let pairs = run.tournament.current();
    let round = run.tournament.rounds@[r]@;
    let (a, b) = (run.tournament.hosts@[h]@, run.tournament.hosts@[j]@);
    assert(testplan::plan_view(run.plan@).len() == run.plan@.len());
    lemma_plan_part(run, h);
    testplan::law_one_partner_per_round(names, r, h);
    testplan::law_pairs_are_mutual(names, pairs, h, j);
    let list = testplan::pairs_plan(names, pairs)[h].targets;
    let told = run.plan@[h].targets@;
    assert(names[h] == a && names[j] == b);
    assert(testplan::rounds_names(run.tournament.rounds@)[r] == testplan::round_names(round));
    assert(pairs.len() == round.len());
    assert forall|e: int| 0 <= e < round.len() implies pairs[e] == (
        (#[trigger] round[e]).0@,
        round[e].1@,
    ) by {}
    let t = testplan::target_of(names, j);
    if list.contains(t) {
        let k = choose|k: int| 0 <= k < list.len() && list[k] == t;
        assert(told[k]@.name == b);
        assert(told[k].name@ == b);
        let e = choose|e: int|
            0 <= e < pairs.len() && testplan::is_pair_of(#[trigger] pairs[e], a, b);
        let p = round[e];
        assert(p.0@ == a && p.1@ == b || p.0@ == b && p.1@ == a);
    }
    if exists|k: int| 0 <= k < told.len() && (#[trigger] told[k]).name@ == b {
        let k = choose|k: int| 0 <= k < told.len() && (#[trigger] told[k]).name@ == b;
        testplan::law_targets_are_hosts(names, pairs, h, k);
        testplan::lemma_partner_is_host(names, pairs, h, k);
        assert(told[k]@.name == b);
        let id = list[k].id as int;
        assert(names[id] == names[j]);
        assert(list[k] == t);
        assert(list.contains(t));
    }
    if exists|e: int|
        0 <= e < round.len() && {
            let p = #[trigger] round[e];
            p.0@ == a && p.1@ == b || p.0@ == b && p.1@ == a
        } {
        let e = choose|e: int|
            0 <= e < round.len() && {
                let p = #[trigger] round[e];
                p.0@ == a && p.1@ == b || p.0@ == b && p.1@ == a
            };
        assert(testplan::is_pair_of(pairs[e], a, b));
    }
}

/// A message of a server, and what the client makes of it: the acknowledgement of a
/// start is counted, and from then on the server has started; that of a stop ends
/// the reading; a window is stored as it is; an error is fatal for a server that
/// never started, and only reported after that.
pub proof fn law_what_messages_do<W>(started: bool, msg: Msg<W>, action: PumpAction<W>)
    requires
        pump(started, msg, action),
    ensures
        match msg {
            Msg::Ack { cmd } => {
                &&& cmd@ == seq!['s', 't', 'a', 'r', 't'] ==> action is CountStart
                    && started_after(started, msg)
                &&& cmd@ == seq!['s', 't', 'o', 'p'] ==> action is Stopped
                &&& cmd@ != seq!['s', 't', 'a', 'r', 't'] ==> started_after(started, msg) == started
                &&& cmd@ != seq!['s', 't', 'a', 'r', 't'] && cmd@ != seq!['s', 't', 'o', 'p']
                    ==> action == PumpAction::Unexpected(msg)
            },
            Msg::Metrics { window } => action == PumpAction::Store(window) && started_after(
                started,
                msg,
            ) == started,
            Msg::Error { message } => {
                &&& started ==> action == PumpAction::<W>::Report(message)
                &&& !started ==> action == PumpAction::<W>::Fail(message)
                &&& started_after(started, msg) == started
            },
            _ => action == PumpAction::Unexpected(msg) && started_after(started, msg) == started,
        },
{
    reveal_strlit("start");
    reveal_strlit("stop");
    assert("start"@ =~= seq!['s', 't', 'a', 'r', 't']);
    assert("stop"@ =~= seq!['s', 't', 'o', 'p']);
}

} // verus!

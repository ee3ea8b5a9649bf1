use vstd::prelude::*;

use crate::proto::{Assignment, AssignmentView, Target, TargetView};
use crate::text;

verus! {

/// A pair of host names.
pub type NamePair = (Seq<char>, Seq<char>);

/// Seats at the table: the hosts, and an empty seat when their number is odd.
pub open spec fn table_size(hosts: int) -> int {
    if hosts % 2 == 0 {
        hosts
    } else {
        hosts + 1
    }
}

/// Who sits at position `p` of a table of `n` in round `r`. Position 0 never
/// moves; the others turn by one position per round.
pub open spec fn seat(n: int, r: int, p: int) -> int {
    if p == 0 {
        0
    } else {
        1 + (p + r) % (n - 1)
    }
}

/// The two seats that face each other across the table at position `i`.
pub open spec fn facing(n: int, r: int, i: int) -> (int, int) {
    (seat(n, r, i), seat(n, r, n - 1 - i))
}

/// Neither side of position `i` is the empty seat.
pub open spec fn occupied(hosts: int, r: int, i: int) -> bool {
    let (a, b) = facing(table_size(hosts), r, i);
    a < hosts && b < hosts
}

/// The pairs of round `r` among the first `k` positions, by host index.
pub open spec fn round_pairs(hosts: int, r: int, k: int) -> Seq<(int, int)>
    decreases k,
{
    if k <= 0 {
        Seq::empty()
    } else {
        let before = round_pairs(hosts, r, k - 1);
        if occupied(hosts, r, k - 1) {
            before.push(facing(table_size(hosts), r, k - 1))
        } else {
            before
        }
    }
}

/// Host names for pairs of host indices.
pub open spec fn named_pairs(hosts: Seq<Seq<char>>, pairs: Seq<(int, int)>) -> Seq<NamePair> {
    Seq::new(pairs.len(), |k: int| (hosts[pairs[k].0], hosts[pairs[k].1]))
}

/// The round-robin schedule of a list of hosts: every round lists the pairs
/// of hosts that face each other in it.
pub open spec fn schedule(hosts: Seq<Seq<char>>) -> Seq<Seq<NamePair>> {
    let m = hosts.len() as int;
    let n = table_size(m);
    if m < 2 {
        Seq::empty()
    } else {
        Seq::new((n - 1) as nat, |r: int| named_pairs(hosts, round_pairs(m, r, n / 2)))
    }
}

/// The names in a pair of strings.
pub open spec fn pair_names(p: (String, String)) -> NamePair {
    (p.0@, p.1@)
}

/// The names in one round of pairs.
pub open spec fn round_names(round: Seq<(String, String)>) -> Seq<NamePair> {
    round.map_values(|p: (String, String)| pair_names(p))
}

/// The names in all rounds.
pub open spec fn rounds_names(rounds: Seq<Vec<(String, String)>>) -> Seq<Seq<NamePair>> {
    rounds.map_values(|v: Vec<(String, String)>| round_names(v@))
}

/// The seat at `p` in closed form.
proof fn lemma_seat(n: int, r: int, p: int)
    requires
        2 <= n,
        0 <= r < n - 1,
        1 <= p < n,
    ensures
        seat(n, r, p) == if p + r < n - 1 {
            p + r + 1
        } else {
            p + r - n + 2
        },
        1 <= seat(n, r, p) < n,
{
    let x = p + r;
    if x < n - 1 {
        vstd::arithmetic::div_mod::lemma_small_mod(x as nat, (n - 1) as nat);
    } else {
        vstd::arithmetic::div_mod::lemma_mod_add_multiples_vanish(x - (n - 1), n - 1);
        vstd::arithmetic::div_mod::lemma_small_mod((x - (n - 1)) as nat, (n - 1) as nat);
    }
}

/// Who sits where after one more turn.
proof fn lemma_turn(n: int, r: int, p: int)
    requires
        2 <= n,
        0 <= r,
        1 <= p < n,
    ensures
        seat(n, r + 1, p) == if p == n - 1 {
            seat(n, r, 1)
        } else {
            seat(n, r, p + 1)
        },
{
    if p == n - 1 {
        vstd::arithmetic::div_mod::lemma_mod_add_multiples_vanish(1 + r, n - 1);
    }
}

/// Round-robin rounds: every host meets every other host once over all
/// rounds, and is in at most one pair per round. With an odd number of hosts
/// one of them sits out each round.
///
/// For n hosts (n even): n-1 rounds of n/2 pairs.
/// For n odd: n rounds of (n-1)/2 pairs.
///
/// Four hosts play `1-2 & 3-4`, then `1-3 & 2-4`, then `1-4 & 2-3`.
pub fn round_robin_rounds(hosts: &[String]) -> (rounds: Vec<Vec<(String, String)>>)
    requires
        hosts@.len() < usize::MAX,
    ensures
        rounds_names(rounds@) == schedule(text::texts(hosts@)),
{
    let m: usize = hosts.len();
    let mut rounds: Vec<Vec<(String, String)>> = Vec::new();
    if m < 2 {
        assert(rounds_names(rounds@) =~= schedule(text::texts(hosts@)));
        return rounds;
    }
    let n: usize = if m % 2 == 1 {
        m + 1
    } else {
        m
    };
    let mut table: Vec<usize> = Vec::new();
    table.push(0);
    let mut k: usize = 2;
    while k < n
        invariant
            2 <= n,
            2 <= k <= n,
            table@.len() == k - 1,
            table@[0] == 0,
            forall|p: int| 1 <= p < k - 1 ==> table@[p] == p + 1,
        decreases n - k,
    {
        table.push(k);
        k += 1;
    }
    table.push(1);
    let mut r: usize = 0;
    proof {
        assert forall|p: int| 0 <= p < n implies table@[p] == seat(n as int, 0, p) by {
            if p > 0 {
                lemma_seat(n as int, 0, p);
            }
        }
    }
    while r < n - 1
        invariant
            2 <= m <= n,
            m == hosts@.len(),
            n == table_size(m as int),
            r <= n - 1,
            table@.len() == n,
            forall|p: int| 0 <= p < n ==> table@[p] == seat(n as int, r as int, p),
            rounds@.len() == r,
            forall|q: int|
                0 <= q < r ==> round_names(#[trigger] rounds@[q]@) == schedule(text::texts(hosts@))[q],
        decreases n - 1 - r,
    {
        let mut pairs: Vec<(String, String)> = Vec::new();
        let mut i: usize = 0;
        while i < n / 2
            invariant
                2 <= m <= n,
                m == hosts@.len(),
                n == table_size(m as int),
                r < n - 1,
                i <= n / 2,
                table@.len() == n,
                forall|p: int| 0 <= p < n ==> table@[p] == seat(n as int, r as int, p),
                round_names(pairs@) == named_pairs(
                    text::texts(hosts@),
                    round_pairs(m as int, r as int, i as int),
                ),
            decreases n / 2 - i,
        {
            let a: usize = table[i];
            let b: usize = table[n - 1 - i];
            let ghost before = round_pairs(m as int, r as int, i as int);
            let ghost names_before = round_names(pairs@);
            if a < m && b < m {
                let pair = (hosts[a].clone(), hosts[b].clone());
                pairs.push(pair);
                assert(round_names(pairs@) =~= names_before.push(pair_names(pair)));
                assert(named_pairs(text::texts(hosts@), before.push((a as int, b as int)))
                    =~= named_pairs(text::texts(hosts@), before).push(
                    (text::texts(hosts@)[a as int], text::texts(hosts@)[b as int]),
                ));
            }
            i += 1;
        }
        rounds.push(pairs);
        let first: usize = table.remove(1);
        table.push(first);
        r += 1;
        proof {
            assert forall|p: int| 0 <= p < n implies table@[p] == seat(n as int, r as int, p) by {
                if p > 0 {
                    lemma_turn(n as int, r - 1, p);
                }
            }
        }
    }
    assert(rounds_names(rounds@) =~= schedule(text::texts(hosts@)));
    rounds
}

/// The destination that stands for host `j` before its address is known.
pub open spec fn target_of(hosts: Seq<Seq<char>>, j: int) -> TargetView {
    TargetView { name: hosts[j], id: j as u32, addr: Seq::empty() }
}

/// What host `i` is told before its own address is known.
pub open spec fn assignment_of(
    hosts: Seq<Seq<char>>,
    i: int,
    targets: Seq<TargetView>,
) -> AssignmentView {
    AssignmentView { self_name: hosts[i], self_id: i as u32, bind: Seq::empty(), targets }
}

/// Every host but `i`, in order.
pub open spec fn others(hosts: Seq<Seq<char>>, i: int) -> Seq<TargetView> {
    Seq::new(
        (hosts.len() - 1) as nat,
        |k: int|
            target_of(
                hosts,
                if k < i {
                    k
                } else {
                    k + 1
                },
            ),
    )
}

/// Every host sends to every other host.
pub open spec fn mesh_plan(hosts: Seq<Seq<char>>) -> Seq<AssignmentView> {
    Seq::new(hosts.len(), |i: int| assignment_of(hosts, i, others(hosts, i)))
}

/// The views of a list of assignments.
pub open spec fn plan_view(plan: Seq<Assignment>) -> Seq<AssignmentView> {
    plan.map_values(|a: Assignment| a@)
}

/// The first place of `name` in the list; the length if it is not there.
pub open spec fn place(hosts: Seq<Seq<char>>, name: Seq<char>) -> int {
    text::first(hosts, name)
}

/// Whom host `i` sends to when the first `k` pairs run: its partner in each
/// pair that it is in.
pub open spec fn partners(hosts: Seq<Seq<char>>, pairs: Seq<NamePair>, i: int, k: int) -> Seq<
    TargetView,
>
    decreases k,
{
    if k <= 0 {
        Seq::empty()
    } else {
        let before = partners(hosts, pairs, i, k - 1);
        let a = place(hosts, pairs[k - 1].0);
        let b = place(hosts, pairs[k - 1].1);
        let with_b = if a == i {
            before.push(target_of(hosts, b))
        } else {
            before
        };
        if b == i {
            with_b.push(target_of(hosts, a))
        } else {
            with_b
        }
    }
}

/// The hosts of each pair send to each other.
pub open spec fn pairs_plan(hosts: Seq<Seq<char>>, pairs: Seq<NamePair>) -> Seq<AssignmentView> {
    Seq::new(
        hosts.len(),
        |i: int| assignment_of(hosts, i, partners(hosts, pairs, i, pairs.len() as int)),
    )
}

/// Mesh: every host sends to every other host at the same time.
pub fn assignments_mesh(hosts: &[String]) -> (plan: Vec<Assignment>)
    ensures
        plan_view(plan@) == mesh_plan(text::texts(hosts@)),
{
    let mut plan: Vec<Assignment> = Vec::new();
    let n: usize = hosts.len();
    let ghost names = text::texts(hosts@);
    let mut i: usize = 0;
    while i < n
        invariant
            n == hosts@.len(),
            names == text::texts(hosts@),
            i <= n,
            plan@.len() == i,
            forall|q: int| 0 <= q < i ==> (#[trigger] plan@[q])@ == mesh_plan(names)[q],
        decreases n - i,
    {
        let mut targets: Vec<Target> = Vec::new();
        let mut j: usize = 0;
        while j < n
            invariant
                n == hosts@.len(),
                names == text::texts(hosts@),
                i < n,
                j <= n,
                targets@.len() == if j <= i {
                    j as int
                } else {
                    j - 1
                },
                forall|k: int|
                    0 <= k < targets@.len() ==> (#[trigger] targets@[k])@ == others(
                        names,
                        i as int,
                    )[k],
            decreases n - j,
        {
            if j != i {
                let t = Target { name: hosts[j].clone(), id: j as u32, addr: String::new() };
                assert(t@ == target_of(names, j as int));
                targets.push(t);
            }
            j += 1;
        }
        let a = Assignment {
            self_name: hosts[i].clone(),
            self_id: i as u32,
            bind: String::new(),
            targets,
        };
        assert(a@.targets =~= others(names, i as int));
        plan.push(a);
        i += 1;
    }
    assert(plan_view(plan@) =~= mesh_plan(names));
    plan
}

/// The first place of `name` in `hosts`; the length if it is not there.
fn position_of(hosts: &[String], name: &String) -> (res: usize)
    ensures
        res == place(text::texts(hosts@), name@),
{
    let n: usize = hosts.len();
    let mut i: usize = 0;
    while i < n
        invariant
            n == hosts@.len(),
            i <= n,
            place(text::texts(hosts@), name@) == text::first_from(text::texts(hosts@), name@, i as int),
        decreases n - i,
    {
        if hosts[i] == *name {
            return i;
        }
        i += 1;
    }
    n
}

/// Every host that a pair names is in the list.
pub open spec fn pairs_known(hosts: Seq<Seq<char>>, pairs: Seq<NamePair>) -> bool {
    forall|k: int|
        0 <= k < pairs.len() ==> hosts.contains((#[trigger] pairs[k]).0) && hosts.contains(
            pairs[k].1,
        )
}

/// The hosts of each pair send to each other; all others send nothing.
pub fn assignments_for_pairs(hosts: &[String], pairs: &[(String, String)]) -> (plan: Vec<
    Assignment,
>)
    requires
        pairs_known(text::texts(hosts@), round_names(pairs@)),
    ensures
        plan_view(plan@) == pairs_plan(text::texts(hosts@), round_names(pairs@)),
{
    let ghost names = text::texts(hosts@);
    let ghost named = round_names(pairs@);
    let n: usize = hosts.len();
    let mut plan: Vec<Assignment> = Vec::new();
    let mut i: usize = 0;
    while i < n
        invariant
            n == hosts@.len(),
            names == text::texts(hosts@),
            i <= n,
            plan@.len() == i,
            forall|q: int|
                0 <= q < i ==> (#[trigger] plan@[q])@ == assignment_of(
                    names,
                    q,
                    partners(names, named, q, 0),
                ),
        decreases n - i,
    {
        let a = Assignment {
            self_name: hosts[i].clone(),
            self_id: i as u32,
            bind: String::new(),
            targets: Vec::new(),
        };
        assert(a@.targets =~= partners(names, named, i as int, 0));
        plan.push(a);
        i += 1;
    }
    let mut k: usize = 0;
    while k < pairs.len()
        invariant
            n == hosts@.len(),
            names == text::texts(hosts@),
            named == round_names(pairs@),
            pairs_known(names, named),
            k <= pairs@.len(),
            plan@.len() == n,
            forall|q: int|
                0 <= q < n ==> (#[trigger] plan@[q])@ == assignment_of(
                    names,
                    q,
                    partners(names, named, q, k as int),
                ),
        decreases pairs@.len() - k,
    {
        let (a, b) = &pairs[k];
        let ia: usize = position_of(hosts, a);
        let ib: usize = position_of(hosts, b);
        proof {
            assert(named[k as int] == (a@, b@));
            text::lemma_first_from(names, a@, 0);
            text::lemma_first_from(names, b@, 0);
        }
        let ghost before = plan@;
        let tb = Target { name: b.clone(), id: ib as u32, addr: String::new() };
        let ta = Target { name: a.clone(), id: ia as u32, addr: String::new() };
        assert(tb@ == target_of(names, ib as int));
        assert(ta@ == target_of(names, ia as int));
        plan[ia].targets.push(tb);
        let ghost mid = plan@;
        plan[ib].targets.push(ta);
        k += 1;
        proof {
            assert forall|q: int| 0 <= q < n implies (#[trigger] plan@[q])@ == assignment_of(
                names,
                q,
                partners(names, named, q, k as int),
            ) by {
                assert(mid[q]@.targets =~= if q == ia {
                    before[q]@.targets.push(tb@)
                } else {
                    before[q]@.targets
                });
                assert(plan@[q]@.targets =~= if q == ib {
                    mid[q]@.targets.push(ta@)
                } else {
                    mid[q]@.targets
                });
                assert(before[q]@ == assignment_of(
                    names,
                    q,
                    partners(names, named, q, k - 1),
                ));
            }
        }
    }
    assert(plan_view(plan@) =~= pairs_plan(names, named));
    plan
}

/// An assignment whose addresses are filled in from the resolved list.
pub open spec fn with_addresses(a: AssignmentView, resolved: Seq<Seq<char>>) -> AssignmentView {
    AssignmentView {
        bind: resolved[a.self_id as int],
        targets: Seq::new(
            a.targets.len(),
            |k: int| TargetView { addr: resolved[a.targets[k].id as int], ..a.targets[k] },
        ),
        ..a
    }
}

/// Every host id of the assignment has a resolved address.
pub open spec fn ids_below(a: AssignmentView, n: int) -> bool {
    a.self_id < n && forall|k: int|
        0 <= k < a.targets.len() ==> (#[trigger] a.targets[k]).id < n
}

/// Fills in the addresses of one assignment.
fn fill_one(a: &mut Assignment, resolved: &[String])
    requires
        ids_below(old(a)@, resolved@.len() as int),
    ensures
        final(a)@ == with_addresses(old(a)@, text::texts(resolved@)),
{
    let ghost start = a@;
    let ghost addrs = text::texts(resolved@);
    a.bind = resolved[a.self_id as usize].clone();
    let n: usize = a.targets.len();
    let mut k: usize = 0;
    while k < n
        invariant
            n == start.targets.len(),
            a.targets@.len() == n,
            k <= n,
            addrs == text::texts(resolved@),
            ids_below(start, resolved@.len() as int),
            a.self_name@ == start.self_name,
            a.self_id == start.self_id,
            a.bind@ == addrs[start.self_id as int],
            forall|q: int|
                0 <= q < k ==> (#[trigger] a.targets@[q])@ == with_addresses(
                    start,
                    addrs,
                ).targets[q],
            forall|q: int| k <= q < n ==> (#[trigger] a.targets@[q])@ == start.targets[q],
        decreases n - k,
    {
        assert(a.targets@[k as int]@ == start.targets[k as int]);
        let id: usize = a.targets[k].id as usize;
        a.targets[k].addr = resolved[id].clone();
        k += 1;
    }
    assert(a@.targets =~= with_addresses(start, addrs).targets);
}

/// Fills in the addresses that the hosts were resolved to, given as text
/// (`ip:port`) in host order.
pub fn fill_resolved(plan: &mut Vec<Assignment>, resolved: &[String])
    requires
        forall|i: int|
            0 <= i < old(plan)@.len() ==> ids_below(
                (#[trigger] old(plan)@[i])@,
                resolved@.len() as int,
            ),
    ensures
        plan_view(final(plan)@) == plan_view(old(plan)@).map_values(
            |a: AssignmentView| with_addresses(a, text::texts(resolved@)),
        ),
{
    let n: usize = plan.len();
    let ghost start = plan@;
    let mut i: usize = 0;
    while i < n
        invariant
            n == start.len(),
            i <= n,
            plan@.len() == n,
            forall|q: int|
                0 <= q < n ==> ids_below((#[trigger] start[q])@, resolved@.len() as int),
            forall|q: int|
                0 <= q < i ==> (#[trigger] plan@[q])@ == with_addresses(
                    start[q]@,
                    text::texts(resolved@),
                ),
            forall|q: int| i <= q < n ==> (#[trigger] plan@[q]) == start[q],
        decreases n - i,
    {
        assert(ids_below(start[i as int]@, resolved@.len() as int));
        fill_one(&mut plan[i], resolved);
        i += 1;
    }
    assert(plan_view(plan@) =~= plan_view(start).map_values(
        |a: AssignmentView| with_addresses(a, text::texts(resolved@)),
    ));
}

/// Position `i` of round `r` comes out as entry number `round_pairs(.., i).len()`.
proof fn lemma_position_entry(hosts: int, r: int, k: int, i: int)
    requires
        0 <= i < k,
        occupied(hosts, r, i),
    ensures
        round_pairs(hosts, r, i).len() < round_pairs(hosts, r, k).len(),
        round_pairs(hosts, r, k)[round_pairs(hosts, r, i).len() as int] == facing(
            table_size(hosts),
            r,
            i,
        ),
    decreases k,
{
    if i < k - 1 {
        lemma_position_entry(hosts, r, k - 1, i);
    }
}

/// Every entry of a round comes from a position of the table.
proof fn lemma_entry_position(hosts: int, r: int, k: int, e: int) -> (i: int)
    requires
        0 <= e < round_pairs(hosts, r, k).len(),
    ensures
        0 <= i < k,
        occupied(hosts, r, i),
        round_pairs(hosts, r, i).len() == e,
        round_pairs(hosts, r, k)[e] == facing(table_size(hosts), r, i),
    decreases k,
{
    let before = round_pairs(hosts, r, k - 1);
    if e < before.len() {
        lemma_entry_position(hosts, r, k - 1, e)
    } else {
        k - 1
    }
}

/// Two positions of a round never share a seat.
proof fn lemma_seats_differ(n: int, r: int, p: int, q: int)
    requires
        2 <= n,
        0 <= r < n - 1,
        0 <= p < n,
        0 <= q < n,
        p != q,
    ensures
        seat(n, r, p) != seat(n, r, q),
        0 <= seat(n, r, p) < n,
{
    if p > 0 {
        lemma_seat(n, r, p);
    }
    if q > 0 {
        lemma_seat(n, r, q);
    }
}

/// The position of the empty seat; all others are occupied.
proof fn lemma_one_empty_seat(hosts: int, r: int) -> (gap: int)
    requires
        2 <= hosts,
        hosts % 2 == 1,
        0 <= r < hosts,
    ensures
        0 <= gap < (hosts + 1) / 2,
        forall|i: int|
            0 <= i < (hosts + 1) / 2 ==> (occupied(hosts, r, i) <==> i != gap),
{
    let n = hosts + 1;
    let h = n / 2;
    // The empty seat is number `hosts`; it stands at position `p`.
    let p = if r == n - 2 {
        n - 1
    } else {
        n - 2 - r
    };
    let gap = if p < h {
        p
    } else {
        n - 1 - p
    };
    lemma_seat(n, r, p);
    assert(seat(n, r, p) == hosts);
    assert forall|i: int| 0 <= i < h implies (occupied(hosts, r, i) <==> i != gap) by {
        if i != gap {
            lemma_seats_differ(n, r, i, p);
            lemma_seats_differ(n, r, n - 1 - i, p);
        }
    }
    gap
}

/// How many pairs the first `k` positions give when position `gap` is empty.
proof fn lemma_count_pairs(hosts: int, r: int, k: int, h: int, gap: int)
    requires
        0 <= k <= h,
        forall|i: int| 0 <= i < h ==> (occupied(hosts, r, i) <==> i != gap),
    ensures
        round_pairs(hosts, r, k).len() == if 0 <= gap < k {
            k - 1
        } else {
            k
        },
    decreases k,
{
    if k > 0 {
        lemma_count_pairs(hosts, r, k - 1, h, gap);
    }
}

/// The number of rounds and of pairs in each: n-1 rounds of n/2 pairs for an
/// even number n of hosts, n rounds of (n-1)/2 pairs for an odd one.
pub proof fn law_schedule_shape(hosts: Seq<Seq<char>>)
    requires
        2 <= hosts.len(),
    ensures
        hosts.len() % 2 == 0 ==> schedule(hosts).len() == hosts.len() - 1,
        hosts.len() % 2 == 1 ==> schedule(hosts).len() == hosts.len(),
        forall|r: int|
            0 <= r < schedule(hosts).len() ==> (#[trigger] schedule(hosts)[r]).len()
                == hosts.len() / 2,
{
    let m = hosts.len() as int;
    let n = table_size(m);
    assert forall|r: int| 0 <= r < schedule(hosts).len() implies (#[trigger] schedule(
        hosts,
    )[r]).len() == hosts.len() / 2 by {
        if m % 2 == 0 {
            assert forall|i: int| 0 <= i < n / 2 implies (occupied(m, r, i) <==> i != -1) by {
                lemma_seats_differ(n, r, i, n - 1 - i);
                lemma_seats_differ(n, r, n - 1 - i, i);
            }
            lemma_count_pairs(m, r, n / 2, n / 2, -1);
        } else {
            let gap = lemma_one_empty_seat(m, r);
            lemma_count_pairs(m, r, n / 2, n / 2, gap);
        }
    }
}

/// The host `name` takes part in the pair.
pub open spec fn in_pair(p: NamePair, name: Seq<char>) -> bool {
    p.0 == name || p.1 == name
}

/// The pair is `a` against `b`, in either order.
pub open spec fn is_pair_of(p: NamePair, a: Seq<char>, b: Seq<char>) -> bool {
    p == (a, b) || p == (b, a)
}

/// Within a round the pairs are disjoint: two different hosts in each, and no
/// host in two of them.
pub proof fn law_round_is_disjoint(hosts: Seq<Seq<char>>, r: int, e: int, f: int, name: Seq<char>)
    requires
        hosts.no_duplicates(),
        0 <= r < schedule(hosts).len(),
        0 <= e < schedule(hosts)[r].len(),
        0 <= f < schedule(hosts)[r].len(),
    ensures
        schedule(hosts)[r][e].0 != schedule(hosts)[r][e].1,
        in_pair(schedule(hosts)[r][e], name) && in_pair(schedule(hosts)[r][f], name) ==> e == f,
{
    let m = hosts.len() as int;
    let n = table_size(m);
    let i = lemma_entry_position(m, r, n / 2, e);
    let j = lemma_entry_position(m, r, n / 2, f);
    lemma_seats_differ(n, r, i, n - 1 - i);
    lemma_seats_differ(n, r, n - 1 - i, i);
    lemma_seats_differ(n, r, j, n - 1 - j);
    lemma_seats_differ(n, r, n - 1 - j, j);
    if i != j {
        lemma_seats_differ(n, r, i, j);
        lemma_seats_differ(n, r, i, n - 1 - j);
        lemma_seats_differ(n, r, n - 1 - i, j);
        lemma_seats_differ(n, r, n - 1 - i, n - 1 - j);
    }
}

/// The round in which seats `x` and `y` face each other, and the position.
proof fn lemma_meeting(n: int, x: int, y: int) -> (at: (int, int))
    requires
        2 <= n,
        n % 2 == 0,
        0 <= x < y < n,
    ensures
        0 <= at.0 < n - 1,
        0 <= at.1 < n / 2,
        facing(n, at.0, at.1) == (x, y) || facing(n, at.0, at.1) == (y, x),
{
    let t = n - 1;
    if x == 0 {
        let r = y - 1;
        lemma_seat(n, r, n - 1);
        (r, 0)
    } else {
        // Positions p and q of the two seats satisfy p + q == n - 1 exactly when
        // twice the round number is `need` up to a multiple of the odd number t.
        let need = if x + y - 2 < t {
            x + y - 2
        } else {
            x + y - 2 - t
        };
        let r = if need % 2 == 0 {
            need / 2
        } else {
            (need + t) / 2
        };
        let p = if x - 1 - r >= 1 {
            x - 1 - r
        } else {
            x - 1 - r + t
        };
        let q = if y - 1 - r >= 1 {
            y - 1 - r
        } else {
            y - 1 - r + t
        };
        assert(0 <= r < t);
        lemma_seat(n, r, p);
        lemma_seat(n, r, q);
        assert(p + q == n - 1);
        if p < q {
            (r, p)
        } else {
            (r, q)
        }
    }
}

/// Seats `x` and `y` face each other only once.
proof fn lemma_meeting_unique(n: int, x: int, y: int, r: int, i: int, s: int, j: int)
    requires
        2 <= n,
        n % 2 == 0,
        0 <= r < n - 1,
        0 <= s < n - 1,
        0 <= i < n / 2,
        0 <= j < n / 2,
        facing(n, r, i) == (x, y) || facing(n, r, i) == (y, x),
        facing(n, s, j) == (x, y) || facing(n, s, j) == (y, x),
    ensures
        r == s,
        i == j,
{
    if i > 0 {
        lemma_seat(n, r, i);
    }
    lemma_seat(n, r, n - 1 - i);
    if j > 0 {
        lemma_seat(n, s, j);
    }
    lemma_seat(n, s, n - 1 - j);
}

/// Over a whole schedule every host meets every other host in exactly one
/// pair of exactly one round.
pub proof fn law_every_pair_meets_once(hosts: Seq<Seq<char>>, a: Seq<char>, b: Seq<char>)
    requires
        hosts.no_duplicates(),
        hosts.contains(a),
        hosts.contains(b),
        a != b,
    ensures
        exists|r: int, e: int|
            0 <= r < schedule(hosts).len() && 0 <= e < schedule(hosts)[r].len() && is_pair_of(
                #[trigger] schedule(hosts)[r][e],
                a,
                b,
            ),
        forall|r: int, e: int, s: int, f: int|
            0 <= r < schedule(hosts).len() && 0 <= e < schedule(hosts)[r].len() && 0 <= s
                < schedule(hosts).len() && 0 <= f < schedule(hosts)[s].len() && is_pair_of(
                #[trigger] schedule(hosts)[r][e],
                a,
                b,
            ) && is_pair_of(#[trigger] schedule(hosts)[s][f], a, b) ==> r == s && e == f,
{
    let m = hosts.len() as int;
    let n = table_size(m);
    let u = hosts.index_of(a);
    let v = hosts.index_of(b);
    assert(0 <= u < m && hosts[u] == a);
    assert(0 <= v < m && hosts[v] == b);
    let (x, y) = if u < v {
        (u, v)
    } else {
        (v, u)
    };
    let (r0, i0) = lemma_meeting(n, x, y);
    assert(occupied(m, r0, i0));
    lemma_position_entry(m, r0, n / 2, i0);
    let e0 = round_pairs(m, r0, i0).len() as int;
    assert(is_pair_of(schedule(hosts)[r0][e0], a, b));
    assert forall|r: int, e: int, s: int, f: int|
        0 <= r < schedule(hosts).len() && 0 <= e < schedule(hosts)[r].len() && 0 <= s < schedule(
            hosts,
        ).len() && 0 <= f < schedule(hosts)[s].len() && is_pair_of(
            #[trigger] schedule(hosts)[r][e],
            a,
            b,
        ) && is_pair_of(#[trigger] schedule(hosts)[s][f], a, b) implies r == s && e == f by {
        let i = lemma_entry_position(m, r, n / 2, e);
        let j = lemma_entry_position(m, s, n / 2, f);
        lemma_seats_differ(n, r, i, n - 1 - i);
        lemma_seats_differ(n, r, n - 1 - i, i);
        lemma_seats_differ(n, s, j, n - 1 - j);
        lemma_seats_differ(n, s, n - 1 - j, j);
        lemma_meeting_unique(n, x, y, r, i, s, j);
    }
}

/// The schedule pairs only hosts of the list.
pub proof fn law_schedule_pairs_known(hosts: Seq<Seq<char>>, r: int)
    requires
        0 <= r < schedule(hosts).len(),
    ensures
        pairs_known(hosts, schedule(hosts)[r]),
{
    let m = hosts.len() as int;
    let n = table_size(m);
    let pairs = schedule(hosts)[r];
    assert forall|e: int| 0 <= e < pairs.len() implies hosts.contains((#[trigger] pairs[e]).0)
        && hosts.contains(pairs[e].1) by {
        let i = lemma_entry_position(m, r, n / 2, e);
        lemma_seats_differ(n, r, i, n - 1 - i);
        lemma_seats_differ(n, r, n - 1 - i, i);
    }
}

/// In a mesh every host has every other host as a target exactly once, and
/// never itself.
pub proof fn law_mesh_reaches_all(hosts: Seq<Seq<char>>, i: int, j: int)
    requires
        hosts.no_duplicates(),
        0 <= i < hosts.len(),
        0 <= j < hosts.len(),
    ensures
        mesh_plan(hosts)[i].targets.len() == hosts.len() - 1,
        mesh_plan(hosts)[i].targets.no_duplicates(),
        mesh_plan(hosts)[i].targets.contains(target_of(hosts, j)) <==> i != j,
{
    let t = others(hosts, i);
    if i != j {
        let k = if j < i {
            j
        } else {
            j - 1
        };
        assert(t[k] == target_of(hosts, j));
    }
}

/// Some pair among the first `k` puts hosts `i` and `j` together.
pub open spec fn paired(
    hosts: Seq<Seq<char>>,
    pairs: Seq<NamePair>,
    i: int,
    j: int,
    k: int,
) -> bool {
    exists|e: int|
        0 <= e < k && {
            let p = #[trigger] pairs[e];
            ||| place(hosts, p.0) == i && place(hosts, p.1) == j
            ||| place(hosts, p.1) == i && place(hosts, p.0) == j
        }
}

/// The partners of `i` are the hosts that it is paired with.
proof fn lemma_partners(hosts: Seq<Seq<char>>, pairs: Seq<NamePair>, i: int, j: int, k: int)
    requires
        hosts.no_duplicates(),
        pairs_known(hosts, pairs),
        0 <= i < hosts.len(),
        0 <= j < hosts.len(),
        0 <= k <= pairs.len(),
    ensures
        partners(hosts, pairs, i, k).contains(target_of(hosts, j)) <==> paired(
            hosts,
            pairs,
            i,
            j,
            k,
        ),
    decreases k,
{
    if k > 0 {
        lemma_partners(hosts, pairs, i, j, k - 1);
        let p = pairs[k - 1];
        let a = place(hosts, p.0);
        let b = place(hosts, p.1);
        text::lemma_first_from(hosts, p.0, 0);
        text::lemma_first_from(hosts, p.1, 0);
        let t = target_of(hosts, j);
        let before = partners(hosts, pairs, i, k - 1);
        let with_b = if a == i {
            before.push(target_of(hosts, b))
        } else {
            before
        };
        let after = partners(hosts, pairs, i, k);
        lemma_push_contains(before, target_of(hosts, b), t);
        lemma_push_contains(with_b, target_of(hosts, a), t);
        assert(target_of(hosts, b) == t <==> b == j);
        assert(target_of(hosts, a) == t <==> a == j);
        if paired(hosts, pairs, i, j, k - 1) {
            let e = choose|e: int|
                0 <= e < k - 1 && {
                    let p = #[trigger] pairs[e];
                    ||| place(hosts, p.0) == i && place(hosts, p.1) == j
                    ||| place(hosts, p.1) == i && place(hosts, p.0) == j
                };
            assert(paired(hosts, pairs, i, j, k));
        }
    }
}

proof fn lemma_push_contains(s: Seq<TargetView>, x: TargetView, t: TargetView)
    ensures
        s.push(x).contains(t) <==> s.contains(t) || x == t,
{
    let u = s.push(x);
    if s.contains(t) {
        let i = choose|i: int| 0 <= i < s.len() && s[i] == t;
        assert(u[i] == t);
    }
    if x == t {
        assert(u[s.len() as int] == t);
    }
    if u.contains(t) {
        let i = choose|i: int| 0 <= i < u.len() && u[i] == t;
        if i < s.len() {
            assert(s[i] == t);
        }
    }
}

/// Traffic between paired hosts runs both ways: `j` is a target of `i`
/// exactly if `i` is a target of `j`, and exactly if a pair joins them.
pub proof fn law_pairs_are_mutual(
    hosts: Seq<Seq<char>>,
    pairs: Seq<NamePair>,
    i: int,
    j: int,
)
    requires
        hosts.no_duplicates(),
        pairs_known(hosts, pairs),
        0 <= i < hosts.len(),
        0 <= j < hosts.len(),
    ensures
        pairs_plan(hosts, pairs)[i].targets.contains(target_of(hosts, j)) <==> pairs_plan(
            hosts,
            pairs,
        )[j].targets.contains(target_of(hosts, i)),
        pairs_plan(hosts, pairs)[i].targets.contains(target_of(hosts, j)) <==> exists|e: int|
            0 <= e < pairs.len() && is_pair_of(#[trigger] pairs[e], hosts[i], hosts[j]),
{
    let n = pairs.len() as int;
    lemma_partners(hosts, pairs, i, j, n);
    lemma_partners(hosts, pairs, j, i, n);
    if paired(hosts, pairs, i, j, n) {
        let e = choose|e: int|
            0 <= e < n && {
                let p = #[trigger] pairs[e];
                ||| place(hosts, p.0) == i && place(hosts, p.1) == j
                ||| place(hosts, p.1) == i && place(hosts, p.0) == j
            };
        text::lemma_first_from(hosts, pairs[e].0, 0);
        text::lemma_first_from(hosts, pairs[e].1, 0);
        assert(is_pair_of(pairs[e], hosts[i], hosts[j]));
        assert(paired(hosts, pairs, j, i, n));
    }
    if paired(hosts, pairs, j, i, n) {
        let e = choose|e: int|
            0 <= e < n && {
                let p = #[trigger] pairs[e];
                ||| place(hosts, p.0) == j && place(hosts, p.1) == i
                ||| place(hosts, p.1) == j && place(hosts, p.0) == i
            };
        assert(place(hosts, pairs[e].0) == i || place(hosts, pairs[e].1) == i);
        assert(paired(hosts, pairs, i, j, n));
    }
    if exists|e: int| 0 <= e < n && is_pair_of(#[trigger] pairs[e], hosts[i], hosts[j]) {
        let e = choose|e: int|
            0 <= e < n && is_pair_of(#[trigger] pairs[e], hosts[i], hosts[j]);
        text::lemma_first_from(hosts, pairs[e].0, 0);
        text::lemma_first_from(hosts, pairs[e].1, 0);
        assert(paired(hosts, pairs, i, j, n));
    }
}

/// How many partners the first `k` pairs of a round give to host `i`.
proof fn lemma_partner_count(hosts: Seq<Seq<char>>, r: int, i: int, k: int)
    requires
        hosts.no_duplicates(),
        0 <= r < schedule(hosts).len(),
        0 <= i < hosts.len(),
        0 <= k <= schedule(hosts)[r].len(),
    ensures
        partners(hosts, schedule(hosts)[r], i, k).len() <= 1,
        partners(hosts, schedule(hosts)[r], i, k).len() == 1 ==> exists|e: int|
            0 <= e < k && in_pair(#[trigger] schedule(hosts)[r][e], hosts[i]),
    decreases k,
{
    if k > 0 {
        let pairs = schedule(hosts)[r];
        lemma_partner_count(hosts, r, i, k - 1);
        law_schedule_pairs_known(hosts, r);
        let p = pairs[k - 1];
        text::lemma_first_from(hosts, p.0, 0);
        text::lemma_first_from(hosts, p.1, 0);
        law_round_is_disjoint(hosts, r, k - 1, k - 1, hosts[i]);
        if partners(hosts, pairs, i, k - 1).len() == 1 {
            let e = choose|e: int|
                0 <= e < k - 1 && in_pair(#[trigger] schedule(hosts)[r][e], hosts[i]);
            law_round_is_disjoint(hosts, r, e, k - 1, hosts[i]);
        } else if place(hosts, p.0) == i || place(hosts, p.1) == i {
            assert(in_pair(schedule(hosts)[r][k - 1], hosts[i]));
        }
    }
}

/// In a round of the schedule a host has at most one partner.
pub proof fn law_one_partner_per_round(hosts: Seq<Seq<char>>, r: int, i: int)
    requires
        hosts.no_duplicates(),
        0 <= r < schedule(hosts).len(),
        0 <= i < hosts.len(),
    ensures
        pairs_plan(hosts, schedule(hosts)[r])[i].targets.len() <= 1,
{
    lemma_partner_count(hosts, r, i, schedule(hosts)[r].len() as int);
}

/// All the targets of host `i` in the first `k` rounds of the schedule, round
/// after round.
pub open spec fn targets_over(hosts: Seq<Seq<char>>, i: int, k: int) -> Seq<TargetView>
    decreases k,
{
    if k <= 0 {
        Seq::empty()
    } else {
        targets_over(hosts, i, k - 1) + pairs_plan(hosts, schedule(hosts)[k - 1])[i].targets
    }
}

/// The target is a host of the list.
spec fn is_host(hosts: Seq<Seq<char>>, t: TargetView) -> bool {
    exists|j: int| 0 <= j < hosts.len() && t == #[trigger] target_of(hosts, j)
}

proof fn lemma_partners_are_hosts(hosts: Seq<Seq<char>>, pairs: Seq<NamePair>, i: int, k: int)
    requires
        pairs_known(hosts, pairs),
        0 <= k <= pairs.len(),
    ensures
        forall|x: int|
            0 <= x < partners(hosts, pairs, i, k).len() ==> is_host(
                hosts,
                #[trigger] partners(hosts, pairs, i, k)[x],
            ),
    decreases k,
{
    if k > 0 {
        lemma_partners_are_hosts(hosts, pairs, i, k - 1);
        let p = pairs[k - 1];
        let a = place(hosts, p.0);
        let b = place(hosts, p.1);
        text::lemma_first_from(hosts, p.0, 0);
        text::lemma_first_from(hosts, p.1, 0);
        assert(is_host(hosts, target_of(hosts, a)));
        assert(is_host(hosts, target_of(hosts, b)));
        let before = partners(hosts, pairs, i, k - 1);
        let after = partners(hosts, pairs, i, k);
        assert forall|x: int| 0 <= x < after.len() implies is_host(hosts, #[trigger] after[x]) by {
            if x < before.len() {
                assert(after[x] == before[x]);
            }
        }
    }
}

/// Host `i` does not meet itself in a round.
pub proof fn lemma_never_alone(hosts: Seq<Seq<char>>, r: int, i: int)
    requires
        hosts.no_duplicates(),
        0 <= r < schedule(hosts).len(),
        0 <= i < hosts.len(),
    ensures
        !pairs_plan(hosts, schedule(hosts)[r])[i].targets.contains(target_of(hosts, i)),
{
    let pairs = schedule(hosts)[r];
    law_schedule_pairs_known(hosts, r);
    law_pairs_are_mutual(hosts, pairs, i, i);
    assert forall|e: int| 0 <= e < pairs.len() implies !is_pair_of(
        #[trigger] pairs[e],
        hosts[i],
        hosts[i],
    ) by {
        law_round_is_disjoint(hosts, r, e, e, hosts[i]);
    }
}

/// Host `j` is among the targets of `i` in the first `k` rounds exactly if it is
/// one in one of these rounds.
proof fn lemma_targets_over(hosts: Seq<Seq<char>>, i: int, k: int, t: TargetView)
    requires
        0 <= k <= schedule(hosts).len(),
    ensures
        targets_over(hosts, i, k).contains(t) <==> exists|r: int|
            0 <= r < k && (#[trigger] pairs_plan(hosts, schedule(hosts)[r])[i]).targets.contains(t),
    decreases k,
{
    if k > 0 {
        lemma_targets_over(hosts, i, k - 1, t);
        let before = targets_over(hosts, i, k - 1);
        let round = pairs_plan(hosts, schedule(hosts)[k - 1])[i].targets;
        let all = before + round;
        if before.contains(t) {
            let x = choose|x: int| 0 <= x < before.len() && before[x] == t;
            assert(all[x] == t);
        }
        if round.contains(t) {
            let x = choose|x: int| 0 <= x < round.len() && round[x] == t;
            assert(all[before.len() + x] == t);
        }
        if all.contains(t) {
            let x = choose|x: int| 0 <= x < all.len() && all[x] == t;
            if x < before.len() {
                assert(before[x] == t);
            } else {
                assert(round[x - before.len()] == t);
                assert(pairs_plan(hosts, schedule(hosts)[k - 1])[i].targets.contains(t));
            }
        }
    }
}

/// No host is a target of `i` in two rounds.
proof fn lemma_targets_differ(hosts: Seq<Seq<char>>, i: int, k: int)
    requires
        hosts.no_duplicates(),
        0 <= i < hosts.len(),
        0 <= k <= schedule(hosts).len(),
    ensures
        targets_over(hosts, i, k).no_duplicates(),
        forall|x: int|
            0 <= x < targets_over(hosts, i, k).len() ==> is_host(
                hosts,
                #[trigger] targets_over(hosts, i, k)[x],
            ),
    decreases k,
{
    if k > 0 {
        let pairs = schedule(hosts)[k - 1];
        let before = targets_over(hosts, i, k - 1);
        let round = pairs_plan(hosts, pairs)[i].targets;
        let all = before + round;
        lemma_targets_differ(hosts, i, k - 1);
        law_one_partner_per_round(hosts, k - 1, i);
        law_schedule_pairs_known(hosts, k - 1);
        lemma_partners_are_hosts(hosts, pairs, i, pairs.len() as int);
        assert forall|x: int| 0 <= x < all.len() implies is_host(hosts, #[trigger] all[x]) by {
            if x < before.len() {
                assert(all[x] == before[x]);
            } else {
                assert(all[x] == round[x - before.len()]);
            }
        }
        if round.len() == 1 {
            let t = round[0];
            assert(round.contains(t));
            assert(is_host(hosts, t));
            let j = choose|j: int| 0 <= j < hosts.len() && t == #[trigger] target_of(hosts, j);
            lemma_never_alone(hosts, k - 1, i);
            assert(i != j);
            assert(!before.contains(t)) by {
                lemma_targets_over(hosts, i, k - 1, t);
                if before.contains(t) {
                    let r = choose|r: int|
                        0 <= r < k - 1 && (#[trigger] pairs_plan(
                            hosts,
                            schedule(hosts)[r],
                        )[i]).targets.contains(t);
                    law_schedule_pairs_known(hosts, r);
                    law_pairs_are_mutual(hosts, schedule(hosts)[r], i, j);
                    law_pairs_are_mutual(hosts, pairs, i, j);
                    let e = choose|e: int|
                        0 <= e < schedule(hosts)[r].len() && is_pair_of(
                            #[trigger] schedule(hosts)[r][e],
                            hosts[i],
                            hosts[j],
                        );
                    let f = choose|f: int|
                        0 <= f < pairs.len() && is_pair_of(
                            #[trigger] schedule(hosts)[k - 1][f],
                            hosts[i],
                            hosts[j],
                        );
                    assert(hosts.contains(hosts[i]));
                    assert(hosts.contains(hosts[j]));
                    law_every_pair_meets_once(hosts, hosts[i], hosts[j]);
                    assert(r == k - 1);
                }
            }
            assert(all =~= before.push(t));
            assert forall|x: int, y: int| 0 <= x < y < all.len() implies all[x] != all[y] by {
                if y == before.len() {
                    assert(before.contains(before[x]));
                }
            }
        } else {
            assert(all =~= before);
        }
    }
}

/// Over all rounds a host is paired with exactly the hosts that it sends to in a
/// mesh, with each of them once, and with one at most in a round.
pub proof fn law_rounds_make_a_mesh(hosts: Seq<Seq<char>>, i: int)
    requires
        hosts.no_duplicates(),
        0 <= i < hosts.len(),
    ensures
        targets_over(hosts, i, schedule(hosts).len() as int).to_multiset() == mesh_plan(
            hosts,
        )[i].targets.to_multiset(),
        targets_over(hosts, i, schedule(hosts).len() as int).no_duplicates(),
        forall|r: int|
            0 <= r < schedule(hosts).len() ==> (#[trigger] pairs_plan(
                hosts,
                schedule(hosts)[r],
            )[i]).targets.len() <= 1,
{
    broadcast use vstd::seq_lib::group_to_multiset_ensures;

    let rounds = schedule(hosts).len() as int;
    let over = targets_over(hosts, i, rounds);
    let mesh = mesh_plan(hosts)[i].targets;
    lemma_targets_differ(hosts, i, rounds);
    assert forall|r: int| 0 <= r < rounds implies (#[trigger] pairs_plan(
        hosts,
        schedule(hosts)[r],
    )[i]).targets.len() <= 1 by {
        law_one_partner_per_round(hosts, r, i);
    }
    law_mesh_reaches_all(hosts, i, i);
    over.lemma_multiset_has_no_duplicates();
    mesh.lemma_multiset_has_no_duplicates();
    assert forall|t: TargetView| over.contains(t) <==> mesh.contains(t) by {
        if over.contains(t) {
            let x = choose|x: int| 0 <= x < over.len() && over[x] == t;
            assert(is_host(hosts, over[x]));
            let j = choose|j: int| 0 <= j < hosts.len() && t == #[trigger] target_of(hosts, j);
            lemma_targets_over(hosts, i, rounds, t);
            let r = choose|r: int|
                0 <= r < rounds && (#[trigger] pairs_plan(
                    hosts,
                    schedule(hosts)[r],
                )[i]).targets.contains(t);
            lemma_never_alone(hosts, r, i);
            law_mesh_reaches_all(hosts, i, j);
        }
        if mesh.contains(t) {
            let x = choose|x: int| 0 <= x < mesh.len() && mesh[x] == t;
            let j = if x < i {
                x
            } else {
                x + 1
            };
            assert(t == target_of(hosts, j));
            assert(hosts.contains(hosts[i]));
            assert(hosts.contains(hosts[j]));
            law_every_pair_meets_once(hosts, hosts[i], hosts[j]);
            let (r, e) = choose|r: int, e: int|
                0 <= r < schedule(hosts).len() && 0 <= e < schedule(hosts)[r].len() && is_pair_of(
                    #[trigger] schedule(hosts)[r][e],
                    hosts[i],
                    hosts[j],
                );
            law_schedule_pairs_known(hosts, r);
            law_pairs_are_mutual(hosts, schedule(hosts)[r], i, j);
            assert(pairs_plan(hosts, schedule(hosts)[r])[i].targets.contains(t));
            lemma_targets_over(hosts, i, rounds, t);
        }
    }
    assert forall|t: TargetView| over.to_multiset().count(t) == mesh.to_multiset().count(t) by {
        if over.contains(t) {
            assert(over.to_multiset().contains(t));
            assert(mesh.to_multiset().contains(t));
        } else {
            assert(!over.to_multiset().contains(t));
            assert(!mesh.to_multiset().contains(t));
        }
    }
    assert(over.to_multiset() =~= mesh.to_multiset());
}

/// In how many of the first `k` rounds host `i` sits out.
pub open spec fn rounds_out(hosts: Seq<Seq<char>>, i: int, k: int) -> int
    decreases k,
{
    if k <= 0 {
        0
    } else {
        rounds_out(hosts, i, k - 1) + (if pairs_plan(
            hosts,
            schedule(hosts)[k - 1],
        )[i].targets.len() == 0 {
            1int
        } else {
            0
        })
    }
}

proof fn lemma_rounds_out(hosts: Seq<Seq<char>>, i: int, k: int)
    requires
        hosts.no_duplicates(),
        0 <= i < hosts.len(),
        0 <= k <= schedule(hosts).len(),
    ensures
        targets_over(hosts, i, k).len() + rounds_out(hosts, i, k) == k,
    decreases k,
{
    if k > 0 {
        lemma_rounds_out(hosts, i, k - 1);
        law_one_partner_per_round(hosts, k - 1, i);
    }
}

/// With an odd number of hosts each of them sits out exactly one round; with an
/// even number none ever does.
pub proof fn law_odd_host_sits_out_once(hosts: Seq<Seq<char>>, i: int)
    requires
        hosts.no_duplicates(),
        2 <= hosts.len(),
        0 <= i < hosts.len(),
    ensures
        rounds_out(hosts, i, schedule(hosts).len() as int) == hosts.len() % 2,
{
    let rounds = schedule(hosts).len() as int;
    law_schedule_shape(hosts);
    lemma_rounds_out(hosts, i, rounds);
    law_rounds_make_a_mesh(hosts, i);
    targets_over(hosts, i, rounds).to_multiset_ensures();
    mesh_plan(hosts)[i].targets.to_multiset_ensures();
    law_mesh_reaches_all(hosts, i, i);
}

proof fn lemma_partner_ids(hosts: Seq<Seq<char>>, pairs: Seq<NamePair>, i: int, k: int)
    requires
        hosts.len() <= u32::MAX,
        pairs_known(hosts, pairs),
        0 <= k <= pairs.len(),
    ensures
        forall|t: int|
            0 <= t < partners(hosts, pairs, i, k).len() ==> (#[trigger] partners(
                hosts,
                pairs,
                i,
                k,
            )[t]).id < hosts.len(),
    decreases k,
{
    if k > 0 {
        lemma_partner_ids(hosts, pairs, i, k - 1);
        let p = pairs[k - 1];
        assert(hosts.contains(p.0) && hosts.contains(p.1));
        text::lemma_first_from(hosts, p.0, 0);
        text::lemma_first_from(hosts, p.1, 0);
        assert(target_of(hosts, place(hosts, p.0)).id < hosts.len());
        assert(target_of(hosts, place(hosts, p.1)).id < hosts.len());
        let before = partners(hosts, pairs, i, k - 1);
        let after = partners(hosts, pairs, i, k);
        assert forall|t: int| 0 <= t < after.len() implies (#[trigger] after[t]).id
            < hosts.len() by {
            if t < before.len() {
                assert(after[t] == before[t]);
            }
        }
    }
}

/// Both kinds of plan name only hosts of the list, so that a list with one
/// resolved address per host fills in every address.
pub proof fn law_plans_can_be_filled(hosts: Seq<Seq<char>>, pairs: Seq<NamePair>, i: int)
    requires
        hosts.len() <= u32::MAX,
        pairs_known(hosts, pairs),
        0 <= i < hosts.len(),
    ensures
        ids_below(mesh_plan(hosts)[i], hosts.len() as int),
        ids_below(pairs_plan(hosts, pairs)[i], hosts.len() as int),
{
    lemma_partner_ids(hosts, pairs, i, pairs.len() as int);
}

/// A target of either kind of plan is a host of the list, under its own name and
/// number.
pub proof fn law_targets_are_hosts(hosts: Seq<Seq<char>>, pairs: Seq<NamePair>, i: int, k: int)
    requires
        hosts.len() <= u32::MAX,
        pairs_known(hosts, pairs),
        0 <= i < hosts.len(),
    ensures
        0 <= k < mesh_plan(hosts)[i].targets.len() ==> {
            let t = mesh_plan(hosts)[i].targets[k];
            t.id < hosts.len() && t.id != i && t.name == hosts[t.id as int]
        },
        0 <= k < pairs_plan(hosts, pairs)[i].targets.len() ==> {
            let t = pairs_plan(hosts, pairs)[i].targets[k];
            t.id < hosts.len() && t.name == hosts[t.id as int]
        },
{
    lemma_partners_are_hosts(hosts, pairs, i, pairs.len() as int);
    let list = partners(hosts, pairs, i, pairs.len() as int);
    if 0 <= k < list.len() {
        assert(is_host(hosts, list[k]));
    }
}

/// The order of the schedule: in round `r`, counted from 0, the first host meets
/// host `r + 1`. Two other hosts meet in the round whose double, up to a multiple of
/// the number of rounds, is two less than the sum of their places. That is `1-2 &
/// 3-4`, then `1-3 & 2-4`, then `1-4 & 2-3` for four hosts.
pub proof fn law_order_of_rounds(hosts: Seq<Seq<char>>, r: int, x: int, y: int)
    requires
        hosts.no_duplicates(),
        0 <= r < schedule(hosts).len(),
        0 <= x < y < hosts.len(),
    ensures
        ({
            let rounds = if hosts.len() % 2 == 0 {
                hosts.len() - 1
            } else {
                hosts.len() as int
            };
            let meet = exists|e: int|
                0 <= e < schedule(hosts)[r].len() && is_pair_of(
                    #[trigger] schedule(hosts)[r][e],
                    hosts[x],
                    hosts[y],
                );
            &&& x == 0 ==> (meet <==> y == r + 1)
            &&& x > 0 ==> (meet <==> (x + y - 2 - 2 * r) % rounds == 0)
        }),
        r + 1 < hosts.len() ==> schedule(hosts)[r][0] == (hosts[0], hosts[r + 1]),
{
    let m = hosts.len() as int;
    let n = table_size(m);
    let t = n - 1;
    let (r0, i0) = lemma_meeting(n, x, y);
    assert(occupied(m, r0, i0));
    lemma_position_entry(m, r0, n / 2, i0);
    let e0 = round_pairs(m, r0, i0).len() as int;
    assert(is_pair_of(schedule(hosts)[r0][e0], hosts[x], hosts[y]));
    // The two meet in no other round.
    if r != r0 {
        assert forall|e: int| 0 <= e < schedule(hosts)[r].len() implies !is_pair_of(
            #[trigger] schedule(hosts)[r][e],
            hosts[x],
            hosts[y],
        ) by {
            let i = lemma_entry_position(m, r, n / 2, e);
            lemma_seats_differ(n, r, i, n - 1 - i);
            lemma_seats_differ(n, r, n - 1 - i, i);
            if is_pair_of(schedule(hosts)[r][e], hosts[x], hosts[y]) {
                lemma_meeting_unique(n, x, y, r, i, r0, i0);
            }
        }
    }
    // Which round that is.
    lemma_seat(n, r0, n - 1 - i0);
    if i0 > 0 {
        lemma_seat(n, r0, i0);
    }
    if x > 0 {
        assert(i0 > 0);
        let d = x + y - 2 - 2 * r0;
        assert(d == t || d == 0 || d == -t || d == 2 * t || d == -2 * t);
        let w: int = if d == 0 {
            0
        } else if d == t {
            1
        } else if d == -t {
            -1
        } else if d == 2 * t {
            2
        } else {
            -2
        };
        assert(d == w * t) by (nonlinear_arith)
            requires
                w == 0 && d == 0 || w == 1 && d == t || w == -1 && d == -t || w == 2 && d == 2 * t
                    || w == -2 && d == -2 * t,
        ;
        vstd::arithmetic::div_mod::lemma_mod_multiples_basic(w, t);
        if r != r0 && (x + y - 2 - 2 * r) % t == 0 {
            let v = (x + y - 2 - 2 * r) / t;
            vstd::arithmetic::div_mod::lemma_fundamental_div_mod(x + y - 2 - 2 * r, t);
            let u = w - v;
            let far = d - (x + y - 2 - 2 * r);
            assert(far == 2 * (r - r0));
            assert(far == u * t) by (nonlinear_arith)
                requires
                    far == w * t - t * v,
                    u == w - v,
            ;
            assert(-2 < u < 2) by (nonlinear_arith)
                requires
                    far == u * t,
                    -2 * t < far < 2 * t,
                    t > 0,
            ;
            assert(far == 0 || far == t || far == -t) by (nonlinear_arith)
                requires
                    far == u * t,
                    -2 < u < 2,
            ;
            assert(t % 2 == 1);
            assert(false);
        }
    } else {
        assert(i0 == 0);
    }
    if r + 1 < m {
        lemma_seat(n, r, n - 1);
        assert(occupied(m, r, 0));
        lemma_position_entry(m, r, n / 2, 0);
    }
}

/// A target in a round of pairs is what stands for the host of its number.
pub proof fn lemma_partner_is_host(
    hosts: Seq<Seq<char>>,
    pairs: Seq<NamePair>,
    i: int,
    k: int,
)
    requires
        pairs_known(hosts, pairs),
        0 <= i < hosts.len(),
        hosts.len() <= u32::MAX,
        0 <= k < pairs_plan(hosts, pairs)[i].targets.len(),
    ensures
        pairs_plan(hosts, pairs)[i].targets[k] == target_of(
            hosts,
            pairs_plan(hosts, pairs)[i].targets[k].id as int,
        ),
{
    lemma_partners_are_hosts(hosts, pairs, i, pairs.len() as int);
    let list = partners(hosts, pairs, i, pairs.len() as int);
    assert(is_host(hosts, list[k]));
}

} // verus!

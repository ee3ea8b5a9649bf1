use std::collections::HashSet;
use tperf::client::{mesh_assignments, Tournament};
use tperf::testplan::{assignments_for_pairs, assignments_mesh, fill_resolved, round_robin_rounds};

fn names(n: usize) -> Vec<String> {
    (1..=n).map(|i| format!("srv{i}")).collect()
}

fn undirected(pairs: &[(String, String)]) -> HashSet<(String, String)> {
    pairs
        .iter()
        .map(|(a, b)| {
            if a <= b {
                (a.clone(), b.clone())
            } else {
                (b.clone(), a.clone())
            }
        })
        .collect()
}

#[test]
fn four_hosts_match_user_example() {
    let hosts = names(4);
    let rounds = round_robin_rounds(&hosts);
    assert_eq!(rounds.len(), 3);
    assert!(rounds.iter().all(|r| r.len() == 2));

    let mut all = HashSet::new();
    for r in &rounds {
        let mut used = HashSet::new();
        for (a, b) in r {
            assert!(used.insert(a), "host {a} twice in one round");
            assert!(used.insert(b), "host {b} twice in one round");
            assert!(a != b);
        }
        let u = undirected(r);
        assert_eq!(u.len(), r.len(), "duplicate pair in a round");
        for p in u {
            assert!(all.insert(p.clone()), "pair {:?} in two rounds", p);
        }
    }
    assert_eq!(all.len(), 6, "C(4,2)=6 undirected pairs");
}

#[test]
fn four_hosts_play_in_this_order() {
    let rounds = round_robin_rounds(&names(4));
    let got: Vec<_> = rounds.iter().map(|r| undirected(r)).collect();
    let want: Vec<HashSet<(String, String)>> = [
        [("srv1", "srv2"), ("srv3", "srv4")],
        [("srv1", "srv3"), ("srv2", "srv4")],
        [("srv1", "srv4"), ("srv2", "srv3")],
    ]
    .iter()
    .map(|r| {
        r.iter()
            .map(|(a, b)| (a.to_string(), b.to_string()))
            .collect()
    })
    .collect();
    assert_eq!(got, want);
}

#[test]
fn five_hosts_bye_each_round() {
    let hosts = names(5);
    let rounds = round_robin_rounds(&hosts);
    assert_eq!(rounds.len(), 5);
    assert!(rounds.iter().all(|r| r.len() == 2));
    let mut all = HashSet::new();
    for r in &rounds {
        let mut used = HashSet::new();
        for (a, b) in r {
            assert!(used.insert(a));
            assert!(used.insert(b));
        }
        for p in undirected(r) {
            assert!(all.insert(p.clone()), "duplicate {p:?}");
        }
    }
    assert_eq!(all.len(), 10, "C(5,2)=10");
}

#[test]
fn forty_hosts_full_cover() {
    let hosts = names(40);
    let rounds = round_robin_rounds(&hosts);
    assert_eq!(rounds.len(), 39);
    assert!(rounds.iter().all(|r| r.len() == 20));
    let mut all = HashSet::new();
    for r in &rounds {
        for p in undirected(r) {
            all.insert(p);
        }
    }
    assert_eq!(all.len(), 40 * 39 / 2);
}

#[test]
fn pair_assignment_is_bidirectional() {
    let hosts = names(4);
    let pairs = vec![
        ("srv1".into(), "srv2".into()),
        ("srv3".into(), "srv4".into()),
    ];
    let asg = assignments_for_pairs(&hosts, &pairs);
    assert_eq!(asg[0].targets[0].name, "srv2");
    assert_eq!(asg[1].targets[0].name, "srv1");
    assert_eq!(asg[2].targets[0].name, "srv4");
    assert_eq!(asg[3].targets[0].name, "srv3");
}

#[test]
fn mesh_all_to_all() {
    let hosts = names(3);
    let asg = assignments_mesh(&hosts);
    assert_eq!(asg[0].targets.len(), 2);
    assert_eq!(asg[1].targets.len(), 2);
    assert_eq!(asg[2].targets.len(), 2);
    let names: Vec<_> = asg[1].targets.iter().map(|t| t.name.as_str()).collect();
    assert_eq!(names, vec!["srv1", "srv3"]);
}

#[test]
fn small_schedules() {
    assert!(round_robin_rounds(&names(0)).is_empty());
    assert!(round_robin_rounds(&names(1)).is_empty());
    let two = round_robin_rounds(&names(2));
    assert_eq!(two, vec![vec![("srv1".to_string(), "srv2".to_string())]]);
    let three = round_robin_rounds(&names(3));
    assert_eq!(three.len(), 3);
    assert!(three.iter().all(|r| r.len() == 1));
}

#[test]
fn addresses_are_filled_in() {
    let hosts = names(3);
    let addrs: Vec<String> = (1..=3).map(|i| format!("10.0.0.{i}:9100")).collect();
    let mut asg = assignments_mesh(&hosts);
    assert_eq!(asg[2].bind, "");
    fill_resolved(&mut asg, &addrs);
    assert_eq!(asg[2].bind, "10.0.0.3:9100");
    assert_eq!(asg[2].self_id, 2);
    assert_eq!(asg[2].targets[1].addr, "10.0.0.2:9100");
    assert_eq!(asg[2].targets[1].id, 1);
    let same = mesh_assignments(&hosts, &addrs);
    assert_eq!(format!("{same:?}"), format!("{asg:?}"));
}

#[test]
fn tournaments_repeat() {
    let hosts = names(4);
    let addrs: Vec<String> = (1..=4).map(|i| format!("10.0.0.{i}:1")).collect();
    let mut t = Tournament::new(&hosts);
    assert_eq!(t.summary(), (3, 2, 6));
    let mut met = HashSet::new();
    for round in 0..3 {
        assert_eq!((t.number, t.round), (1, round));
        for a in t.assignments(&addrs) {
            assert_eq!(a.targets.len(), 1);
            assert_eq!(a.targets[0].addr, addrs[a.targets[0].id as usize]);
            assert_eq!(a.bind, addrs[a.self_id as usize]);
            assert!(met.insert((a.self_id, a.targets[0].id)));
        }
        assert_eq!(t.advance(), round == 2);
    }
    assert_eq!(met.len(), 12);
    assert_eq!((t.number, t.round), (2, 0));
    let mut odd = Tournament::new(&names(3));
    let addrs = &addrs[..3];
    assert_eq!(odd.summary(), (3, 1, 3));
    for _ in 0..3 {
        let idle = odd
            .assignments(addrs)
            .iter()
            .filter(|a| a.targets.is_empty())
            .count();
        assert_eq!(idle, 1);
        odd.advance();
    }
}

#[test]
fn rounds_make_a_mesh() {
    for n in 2..=9 {
        let hosts = names(n);
        let mesh = assignments_mesh(&hosts);
        let mut over: Vec<Vec<u32>> = vec![vec![]; n];
        for round in round_robin_rounds(&hosts) {
            for a in assignments_for_pairs(&hosts, &round) {
                assert!(a.targets.len() <= 1);
                over[a.self_id as usize].extend(a.targets.iter().map(|t| t.id));
            }
        }
        for (i, ids) in over.iter_mut().enumerate() {
            ids.sort();
            let want: Vec<u32> = mesh[i].targets.iter().map(|t| t.id).collect();
            assert_eq!(*ids, want);
        }
    }
}

#[test]
fn odd_hosts_sit_out_once() {
    for n in 2..=9 {
        let hosts = names(n);
        let mut out = vec![0usize; n];
        for round in round_robin_rounds(&hosts) {
            for a in assignments_for_pairs(&hosts, &round) {
                out[a.self_id as usize] += usize::from(a.targets.is_empty());
            }
        }
        assert_eq!(out, vec![n % 2; n]);
    }
}

use secret_santa::{Santa, SantaError, SantaMatcher};

fn matcher_of(names: &[&str], exclusions: &[(&str, &[&str])]) -> Result<SantaMatcher, SantaError> {
    let mut santa = Santa::new();
    santa.set_names(names);
    for (name, excluded) in exclusions {
        santa.set_exceptions_for_name(name, excluded);
    }
    santa.matcher()
}

fn pair(a: &str, b: &str) -> (String, String) {
    (a.to_string(), b.to_string())
}

fn check_valid(names: &[&str], exclusions: &[(&str, &[&str])], pairs: &[(String, String)]) {
    assert_eq!(pairs.len(), names.len());
    for (i, (giver, receiver)) in pairs.iter().enumerate() {
        assert_eq!(giver, names[i]);
        assert_ne!(giver, receiver);
        assert!(names.contains(&receiver.as_str()));
        for (name, excluded) in exclusions {
            if name == giver {
                assert!(!excluded.contains(&receiver.as_str()));
            }
        }
    }
    for i in 0..pairs.len() {
        for j in 0..pairs.len() {
            if i != j {
                assert_ne!(pairs[i].1, pairs[j].1);
            }
        }
    }
}

#[test]
fn two_members_swap() {
    let m = matcher_of(&["A", "B"], &[]).unwrap();
    for _ in 0..50 {
        assert_eq!(m.generate().unwrap(), vec![pair("A", "B"), pair("B", "A")]);
    }
    assert_eq!(m.generate_with(&[7, 3]).unwrap(), vec![pair("A", "B"), pair("B", "A")]);
}

#[test]
fn one_exclusion_forces_recipient() {
    let excl: &[(&str, &[&str])] = &[("A", &["B"])];
    let m = matcher_of(&["A", "B", "C"], excl).unwrap();
    for _ in 0..100 {
        let pairs = m.generate().unwrap();
        check_valid(&["A", "B", "C"], excl, &pairs);
        assert_eq!(pairs[0], pair("A", "C"));
    }
    for d in 0..6usize {
        let pairs = m.generate_with(&[d, d + 1, d + 2]).unwrap();
        check_valid(&["A", "B", "C"], excl, &pairs);
        assert_eq!(pairs[0], pair("A", "C"));
    }
}

#[test]
fn full_exclusion_fails_setup() {
    let excl: &[(&str, &[&str])] = &[("A", &["B", "C"])];
    match matcher_of(&["A", "B", "C"], excl) {
        Err(e) => assert_eq!(e, SantaError::EmptyCandidatePool("A".to_string())),
        Ok(_) => panic!("setup should fail"),
    }
}

#[test]
fn first_empty_pool_is_reported() {
    let excl: &[(&str, &[&str])] = &[("C", &["A", "B"]), ("B", &["A", "C"])];
    match matcher_of(&["A", "B", "C"], excl) {
        Err(e) => assert_eq!(e, SantaError::EmptyCandidatePool("B".to_string())),
        Ok(_) => panic!("setup should fail"),
    }
}

#[test]
fn too_few_members() {
    assert!(matches!(matcher_of(&[], &[]), Err(SantaError::InsufficientMembers)));
    assert!(matches!(matcher_of(&["A"], &[]), Err(SantaError::InsufficientMembers)));
    assert!(matches!(matcher_of(&["A", "A"], &[]), Err(SantaError::InsufficientMembers)));
}

#[test]
fn stress_twenty_members_succeed_with_retries() {
    let names: Vec<String> = (0..20).map(|i| format!("member{}", i)).collect();
    let refs: Vec<&str> = names.iter().map(|s| s.as_str()).collect();
    for trial in 0..20usize {
        let mut santa = Santa::new();
        santa.set_names(&refs);
        let mut excl: Vec<(String, String)> = vec![];
        for i in 0..20usize {
            let other = (i + 1 + (trial * 7 + i * 3) % 19) % 20;
            assert_ne!(other, i);
            santa.set_exceptions_for_name(refs[i], &[refs[other]]);
            excl.push((names[i].clone(), names[other].clone()));
        }
        let m = santa.matcher().unwrap();
        for pool in m.candidates() {
            assert_eq!(pool.len(), 18);
        }
        let mut done = false;
        for _ in 0..50 {
            if let Ok(pairs) = m.generate() {
                assert_eq!(pairs.len(), 20);
                for (k, (giver, receiver)) in pairs.iter().enumerate() {
                    assert_eq!(giver, &names[k]);
                    assert_ne!(giver, receiver);
                    assert_ne!(receiver, &excl[k].1);
                }
                let mut receivers: Vec<&String> = pairs.iter().map(|p| &p.1).collect();
                receivers.sort();
                receivers.dedup();
                assert_eq!(receivers.len(), 20);
                done = true;
                break;
            }
        }
        assert!(done);
    }
}

#[test]
fn same_draws_same_result() {
    let m = matcher_of(&["A", "B", "C", "D", "E"], &[("A", &["B"]), ("C", &["D", "E"])]).unwrap();
    for seed in 0..20usize {
        let draws: Vec<usize> = (0..5).map(|k| seed * 31 + k * 17).collect();
        assert_eq!(m.generate_with(&draws), m.generate_with(&draws));
    }
}

#[test]
fn draws_select_exact_candidates() {
    let m = matcher_of(&["A", "B", "C"], &[]).unwrap();
    assert_eq!(
        m.generate_with(&[0, 0, 0]).unwrap(),
        vec![pair("A", "B"), pair("B", "C"), pair("C", "A")]
    );
    assert_eq!(
        m.generate_with(&[1, 0, 0]).unwrap(),
        vec![pair("A", "C"), pair("B", "A"), pair("C", "B")]
    );
    assert_eq!(m.generate_with(&[]).unwrap(), m.generate_with(&[0, 0, 0]).unwrap());
    assert_eq!(m.generate_with(&[3]).unwrap(), m.generate_with(&[1]).unwrap());
}

#[test]
fn crowded_pool_is_unsatisfiable() {
    let excl: &[(&str, &[&str])] = &[("A", &["B", "C"]), ("B", &["A", "C"]), ("C", &["A", "B"])];
    let m = matcher_of(&["A", "B", "C", "D"], excl).unwrap();
    assert_eq!(m.generate(), Err(SantaError::Unsatisfiable("B".to_string())));
    assert_eq!(m.generate_with(&[5, 5, 5, 5]), Err(SantaError::Unsatisfiable("B".to_string())));
}

#[test]
fn set_names_keeps_first_occurrences() {
    let mut santa = Santa::new();
    santa.set_names(&["B", "A", "B", "C", "A"]);
    assert_eq!(santa.names(), &vec!["B".to_string(), "A".to_string(), "C".to_string()]);
    santa.set_names(&["X", "Y"]);
    assert_eq!(santa.names(), &vec!["X".to_string(), "Y".to_string()]);
}

#[test]
fn add_name_ignores_repeats() {
    let mut santa = Santa::new();
    santa.add_name("A").add_name("B").add_name("A");
    assert_eq!(santa.names(), &vec!["A".to_string(), "B".to_string()]);
}

#[test]
fn later_exceptions_replace_earlier() {
    let mut santa = Santa::new();
    santa
        .add_name_with_exceptions("A", &["B", "C"])
        .add_name("B")
        .add_name("C")
        .set_exceptions_for_name("A", &["B"]);
    let m = santa.matcher().unwrap();
    for _ in 0..20 {
        assert_eq!(m.generate().unwrap()[0], pair("A", "C"));
    }
}

#[test]
fn exceptions_for_outsiders_are_ignored() {
    let mut santa = Santa::new();
    santa.add_name_with_exceptions("A", &["Z"]).add_name_with_exceptions("B", &["Q"]);
    santa.set_exceptions_for_name("Q", &["A", "B"]);
    let m = santa.matcher().unwrap();
    assert_eq!(m.generate().unwrap(), vec![pair("A", "B"), pair("B", "A")]);
}

#[test]
fn error_messages() {
    assert_eq!(SantaError::InsufficientMembers.message(), "at least two names are required");
    assert_eq!(SantaError::EmptyCandidatePool("A".to_string()).message(), "no selections for A");
    assert_eq!(SantaError::Unsatisfiable("B".to_string()).message(), "no selection left for B");
}

fn strings(v: &[&str]) -> Vec<String> {
    v.iter().map(|s| s.to_string()).collect()
}

#[test]
fn candidate_pools_by_name() {
    let excl: &[(&str, &[&str])] = &[("A", &["B", "C"]), ("B", &["A", "C"]), ("C", &["A", "B"])];
    let m = matcher_of(&["A", "B", "C", "D"], excl).unwrap();
    assert_eq!(
        m.candidates(),
        vec![strings(&["D"]), strings(&["D"]), strings(&["D"]), strings(&["A", "B", "C"])]
    );
    assert_eq!(m.priority_group(), strings(&["A", "B", "C"]));
}

#[test]
fn priority_prefers_smallest_pool() {
    let excl: &[(&str, &[&str])] = &[("A", &["B", "D"]), ("B", &["A"])];
    let m = matcher_of(&["A", "B", "C", "D"], excl).unwrap();
    assert_eq!(m.priority_group(), strings(&["A"]));
}

#[test]
fn priority_prefers_larger_group_on_equal_size() {
    let excl: &[(&str, &[&str])] = &[("C", &["D"]), ("A", &["B"]), ("B", &["A"])];
    let m = matcher_of(&["C", "A", "B", "D"], excl).unwrap();
    assert_eq!(m.candidates()[0], strings(&["A", "B"]));
    assert_eq!(m.priority_group(), strings(&["A", "B"]));
}

#[test]
fn priority_ties_go_to_earliest_member() {
    let m = matcher_of(&["A", "B", "C"], &[]).unwrap();
    assert_eq!(m.priority_group(), strings(&["A"]));
}

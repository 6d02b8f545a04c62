use room_graph::problem::{
    get_n_from_problem_name, parse_size, resolve_problem, ProblemName, DEGREE, LABELS,
};

#[test]
fn constants() {
    assert_eq!(LABELS, 4);
    assert_eq!(DEGREE, 6);
}

#[test]
fn room_counts_of_named_problems() {
    let want = [
        (ProblemName::Probatio, 3),
        (ProblemName::Primus, 6),
        (ProblemName::Secundus, 12),
        (ProblemName::Tertius, 18),
        (ProblemName::Quartus, 24),
        (ProblemName::Quintus, 30),
        (ProblemName::Aleph, 12),
        (ProblemName::Beth, 24),
        (ProblemName::Gimel, 36),
        (ProblemName::Daleth, 48),
        (ProblemName::He, 60),
        (ProblemName::Vau, 18),
        (ProblemName::Zain, 36),
        (ProblemName::Hhet, 54),
        (ProblemName::Teth, 72),
        (ProblemName::Iod, 90),
    ];
    for (p, n) in want {
        assert_eq!(p.nodes(), n);
    }
}

#[test]
fn names_are_read_back() {
    let all = [
        ProblemName::Probatio,
        ProblemName::Primus,
        ProblemName::Secundus,
        ProblemName::Tertius,
        ProblemName::Quartus,
        ProblemName::Quintus,
        ProblemName::Aleph,
        ProblemName::Beth,
        ProblemName::Gimel,
        ProblemName::Daleth,
        ProblemName::He,
        ProblemName::Vau,
        ProblemName::Zain,
        ProblemName::Hhet,
        ProblemName::Teth,
        ProblemName::Iod,
    ];
    for p in all {
        assert_eq!(ProblemName::from_name(p.name()), Some(p));
    }
    assert_eq!(ProblemName::Hhet.name(), "hhet");
}

#[test]
fn unknown_names_are_not_found() {
    assert_eq!(ProblemName::from_name("Probatio"), None);
    assert_eq!(ProblemName::from_name(""), None);
    assert_eq!(ProblemName::from_name("h"), None);
}

#[test]
fn basic_and_rewriting_problems() {
    assert_eq!(get_n_from_problem_name("probatio"), Some((3, false)));
    assert_eq!(get_n_from_problem_name("quintus"), Some((30, false)));
    assert_eq!(get_n_from_problem_name("aleph"), Some((12, true)));
    assert_eq!(get_n_from_problem_name("iod"), Some((90, true)));
    assert_eq!(get_n_from_problem_name("nemo"), None);
    assert!(!ProblemName::Secundus.rewriting());
    assert!(ProblemName::Vau.rewriting());
}

#[test]
fn bare_numbers_are_sizes() {
    assert_eq!(parse_size("0"), Some(0));
    assert_eq!(parse_size("17"), Some(17));
    assert_eq!(parse_size("007"), Some(7));
    assert_eq!(parse_size(""), None);
    assert_eq!(parse_size("1a"), None);
    assert_eq!(parse_size("-1"), None);
    assert_eq!(parse_size("99999999999999999999999999"), None);
}

#[test]
fn numbers_select_the_rewriting_oracle() {
    assert_eq!(resolve_problem("42"), Some((42, true)));
    assert_eq!(resolve_problem("secundus"), Some((12, false)));
    assert_eq!(resolve_problem("x42"), None);
}

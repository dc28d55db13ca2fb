use istanbul_oxide::{
    Branch, BranchType, Coverage, FileCoverage, Function, IndexedMap, Range, Totals,
};

fn base_coverage() -> FileCoverage {
    FileCoverage {
        all: false,
        path: "/path/to/file".to_string(),
        statement_map: IndexedMap::from_pairs(vec![
            (0, Range::new(1, 1, 1, 100)),
            (1, Range::new(2, 1, 2, 50)),
            (2, Range::new(2, 51, 2, 100)),
            (3, Range::new(2, 101, 3, 100)),
        ]),
        fn_map: IndexedMap::from_pairs(vec![(
            0,
            Function {
                name: "foobar".to_string(),
                line: 1,
                loc: Range::new(1, 1, 1, 50),
                decl: Default::default(),
            },
        )]),
        branch_map: IndexedMap::from_pairs(vec![(
            0,
            Branch::from_line(
                BranchType::If,
                2,
                vec![Range::new(2, 1, 2, 20), Range::new(2, 50, 2, 100)],
            ),
        )]),
        s: IndexedMap::from_pairs(vec![(0, 0), (1, 0), (2, 0), (3, 0)]),
        f: IndexedMap::from_pairs(vec![(0, 0)]),
        b: IndexedMap::from_pairs(vec![(0, vec![0, 0])]),
        b_t: None,
    }
}

#[test]
fn should_able_to_merge_another_file() {
    let base = base_coverage();

    let mut first = base.clone();
    let mut second = base.clone();

    first.s.insert(0, 1);
    first.f.insert(0, 1);
    first.b.insert(0, vec![1, 0]);

    second.s.insert(1, 1);
    second.f.insert(0, 1);
    second.b.insert(0, vec![0, 2]);

    let summary = first.to_summary();
    assert_eq!(summary.statements, Totals::new(4, 1, 0, 2500));
    assert_eq!(summary.lines, Totals::new(2, 1, 0, 5000));
    assert_eq!(summary.functions, Totals::new(1, 1, 0, 10000));
    assert_eq!(summary.branches, Totals::new(2, 1, 0, 5000));

    first.merge(&second);
    let summary = first.to_summary();

    assert_eq!(summary.statements, Totals::new(4, 2, 0, 5000));
    assert_eq!(summary.lines, Totals::new(2, 2, 0, 10000));
    assert_eq!(summary.functions, Totals::new(1, 1, 0, 10000));
    assert_eq!(summary.branches, Totals::new(2, 2, 0, 10000));

    assert_eq!(first.s.get(0), Some(&1));
    assert_eq!(first.s.get(1), Some(&1));
    assert_eq!(first.f.get(0), Some(&2));
    assert_eq!(first.b.get(0).unwrap()[0], 1);
    assert_eq!(first.b.get(0).unwrap()[1], 2);
}

#[test]
fn should_able_to_merge_another_file_with_different_starting_indices() {
    let base = base_coverage();

    let base_other = FileCoverage {
        all: false,
        path: "/path/to/file".to_string(),
        statement_map: IndexedMap::from_pairs(vec![
            (1, Range::new(1, 1, 1, 100)),
            (2, Range::new(2, 1, 2, 50)),
            (3, Range::new(2, 51, 2, 100)),
            (4, Range::new(2, 101, 3, 100)),
        ]),
        fn_map: IndexedMap::from_pairs(vec![(
            1,
            Function {
                name: "foobar".to_string(),
                line: 1,
                loc: Range::new(1, 1, 1, 50),
                decl: Default::default(),
            },
        )]),
        branch_map: IndexedMap::from_pairs(vec![(
            1,
            Branch::from_line(
                BranchType::If,
                2,
                vec![Range::new(2, 1, 2, 20), Range::new(2, 50, 2, 100)],
            ),
        )]),
        s: IndexedMap::from_pairs(vec![(1, 0), (2, 0), (3, 0), (4, 0)]),
        f: IndexedMap::from_pairs(vec![(1, 0)]),
        b: IndexedMap::from_pairs(vec![(1, vec![0, 0])]),
        b_t: None,
    };

    let mut first = base.clone();
    let mut second = base_other.clone();

    first.s.insert(0, 1);
    first.f.insert(0, 1);
    first.b.insert(0, vec![1, 0]);

    second.s.insert(2, 1);
    second.f.insert(1, 1);
    second.b.insert(1, vec![0, 2]);

    let summary = first.to_summary();
    assert_eq!(summary.statements, Totals::new(4, 1, 0, 2500));
    assert_eq!(summary.lines, Totals::new(2, 1, 0, 5000));
    assert_eq!(summary.functions, Totals::new(1, 1, 0, 10000));
    assert_eq!(summary.branches, Totals::new(2, 1, 0, 5000));

    first.merge(&second);
    let summary = first.to_summary();

    assert_eq!(summary.statements, Totals::new(4, 2, 0, 5000));
    assert_eq!(summary.lines, Totals::new(2, 2, 0, 10000));
    assert_eq!(summary.functions, Totals::new(1, 1, 0, 10000));
    assert_eq!(summary.branches, Totals::new(2, 2, 0, 10000));

    assert_eq!(first.s.get(0), Some(&1));
    assert_eq!(first.s.get(1), Some(&1));
    assert_eq!(first.f.get(0), Some(&2));
    assert_eq!(first.b.get(0).unwrap()[0], 1);
    assert_eq!(first.b.get(0).unwrap()[1], 2);
}

#[test]
fn should_drop_data_while_merge() {
    let base = FileCoverage {
        all: false,
        path: "/path/to/file".to_string(),
        statement_map: IndexedMap::from_pairs(vec![
            (1, Range::new(1, 1, 1, 100)),
            (2, Range::new(2, 1, 2, 50)),
            (3, Range::new(2, 51, 2, 100)),
            (4, Range::new(2, 101, 3, 100)),
        ]),
        fn_map: IndexedMap::from_pairs(vec![(
            1,
            Function {
                name: "foobar".to_string(),
                line: 1,
                loc: Range::new(1, 1, 1, 50),
                decl: Default::default(),
            },
        )]),
        branch_map: IndexedMap::from_pairs(vec![(
            1,
            Branch::from_line(
                BranchType::If,
                2,
                vec![Range::new(2, 1, 2, 20), Range::new(2, 50, 2, 100)],
            ),
        )]),
        s: IndexedMap::from_pairs(vec![(1, 0), (2, 0), (3, 0), (4, 0)]),
        f: IndexedMap::from_pairs(vec![(1, 0)]),
        b: IndexedMap::from_pairs(vec![(1, vec![0, 0])]),
        b_t: None,
    };

    let create_coverage = |all: bool| {
        let mut ret = base.clone();
        if all {
            ret.all = true;
        } else {
            ret.s.insert(1, 1);
            ret.f.insert(1, 1);
            ret.b.insert(1, vec![1, 0]);
        }
        ret
    };

    let expected = create_coverage(false);

    let mut cov = create_coverage(true);
    cov.merge(&create_coverage(false));
    assert_eq!(cov, expected);

    let mut cov = create_coverage(false);
    cov.merge(&create_coverage(true));
    assert_eq!(cov, expected);
}

#[test]
fn merges_another_file_coverage_tracks_logical_truthiness() {
    let base = base_coverage();

    let mut first = base.clone();
    let mut second = base.clone();

    first.s.insert(0, 1);
    first.f.insert(0, 1);
    first.b.insert(0, vec![1, 0]);
    first.b_t = Some(IndexedMap::from_pairs(vec![(0, vec![1])]));

    second.s.insert(1, 1);
    second.f.insert(0, 1);
    second.b.insert(0, vec![0, 2]);
    second.b_t = Some(IndexedMap::from_pairs(vec![(0, vec![0, 2])]));

    let summary = first.to_summary();
    assert_eq!(summary.statements, Totals::new(4, 1, 0, 2500));
    assert_eq!(summary.lines, Totals::new(2, 1, 0, 5000));
    assert_eq!(summary.functions, Totals::new(1, 1, 0, 10000));
    assert_eq!(summary.branches, Totals::new(2, 1, 0, 5000));

    first.merge(&second);
    let summary = first.to_summary();

    assert_eq!(summary.statements, Totals::new(4, 2, 0, 5000));
    assert_eq!(summary.lines, Totals::new(2, 2, 0, 10000));
    assert_eq!(summary.functions, Totals::new(1, 1, 0, 10000));
    assert_eq!(summary.branches, Totals::new(2, 2, 0, 10000));

    assert_eq!(first.s.get(0), Some(&1));
    assert_eq!(first.s.get(1), Some(&1));
    assert_eq!(first.f.get(0), Some(&2));
    assert_eq!(first.b.get(0).unwrap()[0], 1);
    assert_eq!(first.b.get(0).unwrap()[1], 2);
    let b_t = first.b_t.unwrap();
    assert_eq!(b_t.get(0).unwrap()[0], 1);
    assert_eq!(b_t.get(0).unwrap()[1], 2);
}

#[test]
fn should_reset_hits() {
    let base = FileCoverage {
        all: false,
        path: "/path/to/file".to_string(),
        statement_map: IndexedMap::from_pairs(vec![
            (1, Range::new(1, 1, 1, 100)),
            (2, Range::new(2, 1, 2, 50)),
            (3, Range::new(2, 51, 2, 100)),
            (4, Range::new(2, 101, 3, 100)),
        ]),
        fn_map: IndexedMap::from_pairs(vec![(
            1,
            Function {
                name: "foobar".to_string(),
                line: 1,
                loc: Range::new(1, 1, 1, 50),
                decl: Default::default(),
            },
        )]),
        branch_map: IndexedMap::from_pairs(vec![(
            1,
            Branch::from_line(
                BranchType::If,
                2,
                vec![Range::new(2, 1, 2, 20), Range::new(2, 50, 2, 100)],
            ),
        )]),
        s: IndexedMap::from_pairs(vec![(1, 2), (2, 3), (3, 1), (4, 0)]),
        f: IndexedMap::from_pairs(vec![(1, 54)]),
        b: IndexedMap::from_pairs(vec![(1, vec![1, 50])]),
        b_t: Some(IndexedMap::from_pairs(vec![(1, vec![1, 50])])),
    };

    let mut value = base.clone();
    value.reset_hits();

    assert_eq!(
        IndexedMap::from_pairs(vec![(1, 0), (2, 0), (3, 0), (4, 0)]),
        value.s
    );
    assert_eq!(IndexedMap::from_pairs(vec![(1, 0)]), value.f);
    assert_eq!(IndexedMap::from_pairs(vec![(1, vec![0, 0])]), value.b);
    assert_eq!(Some(IndexedMap::from_pairs(vec![(1, vec![0, 0])])), value.b_t);
    assert_eq!(base.statement_map, value.statement_map);
    assert_eq!(base.fn_map, value.fn_map);
    assert_eq!(base.branch_map, value.branch_map);
}

#[test]
fn should_return_uncovered_lines() {
    let base = FileCoverage {
        all: false,
        path: "/path/to/file".to_string(),
        statement_map: IndexedMap::from_pairs(vec![
            (1, Range::new(1, 1, 1, 100)),
            (2, Range::new(1, 101, 1, 200)),
            (3, Range::new(2, 1, 2, 100)),
        ]),
        fn_map: IndexedMap::new(),
        branch_map: IndexedMap::new(),
        s: IndexedMap::from_pairs(vec![(1, 0), (2, 1), (3, 0)]),
        f: IndexedMap::new(),
        b: IndexedMap::new(),
        b_t: None,
    };

    assert_eq!(base.get_uncovered_lines(), vec![2]);
}

#[test]
fn should_return_branch_coverage_by_line() {
    let base = FileCoverage {
        all: false,
        path: "/path/to/file".to_string(),
        statement_map: IndexedMap::new(),
        fn_map: IndexedMap::new(),
        branch_map: IndexedMap::from_pairs(vec![
            (1, Branch::from_line(BranchType::If, 1, Default::default())),
            (2, Branch::from_line(BranchType::If, 2, Default::default())),
        ]),
        s: IndexedMap::new(),
        f: IndexedMap::new(),
        b: IndexedMap::from_pairs(vec![(1, vec![1, 0]), (2, vec![0, 0, 0, 1])]),
        b_t: None,
    };

    let coverage = base.get_branch_coverage_by_line();
    assert_eq!(
        coverage,
        IndexedMap::from_pairs(vec![
            (1, Coverage::new(1, 2, 5000)),
            (2, Coverage::new(1, 4, 2500)),
        ])
    );
}

#[test]
fn should_return_branch_coverage_by_line_with_cobertura_branchmap_structure() {
    let base = FileCoverage {
        all: false,
        path: "/path/to/file".to_string(),
        statement_map: IndexedMap::new(),
        fn_map: IndexedMap::new(),
        branch_map: IndexedMap::from_pairs(vec![
            (
                1,
                Branch::from_loc(BranchType::If, Range::new(1, 1, 1, 100), Default::default()),
            ),
            (
                2,
                Branch::from_loc(
                    BranchType::If,
                    Range::new(2, 50, 2, 100),
                    Default::default(),
                ),
            ),
        ]),
        s: IndexedMap::new(),
        f: IndexedMap::new(),
        b: IndexedMap::from_pairs(vec![(1, vec![1, 0]), (2, vec![0, 0, 0, 1])]),
        b_t: None,
    };

    let coverage = base.get_branch_coverage_by_line();
    assert_eq!(
        coverage,
        IndexedMap::from_pairs(vec![
            (1, Coverage::new(1, 2, 5000)),
            (2, Coverage::new(1, 4, 2500)),
        ])
    )
}

#[test]
fn should_allow_file_coverage_to_be_init_with_logical_truthiness() {
    assert_eq!(FileCoverage::from_file_path("".to_string(), false).b_t, None);
    assert_eq!(
        FileCoverage::from_file_path("".to_string(), true).b_t,
        Some(IndexedMap::new())
    );
}

#[test]
fn line_coverage_takes_maximum_per_line() {
    // Statements on lines [1, 1, 2] with hits [0, 1, 0]: line 1 keeps the
    // larger of 0 and 1, line 2 stays uncovered.
    let base = FileCoverage {
        all: false,
        path: "/path/to/file".to_string(),
        statement_map: IndexedMap::from_pairs(vec![
            (0, Range::new(1, 1, 1, 40)),
            (1, Range::new(1, 41, 1, 80)),
            (2, Range::new(2, 1, 2, 40)),
        ]),
        fn_map: IndexedMap::new(),
        branch_map: IndexedMap::new(),
        s: IndexedMap::from_pairs(vec![(0, 0), (1, 1), (2, 0)]),
        f: IndexedMap::new(),
        b: IndexedMap::new(),
        b_t: None,
    };
    let lc = base.get_line_coverage();
    assert_eq!(lc.get(1), Some(&1));
    assert_eq!(lc.get(2), Some(&0));
    assert_eq!(base.get_uncovered_lines(), vec![2]);
}

#[test]
fn branch_coverage_pools_branches_on_one_line() {
    // Two branches on line 2 with hit vectors [1, 0] and [0, 0, 0, 1]:
    // one bucket with covered 2 of 6, about 33.33 percent; a branch on
    // line 1 with [1, 0] covers 1 of 2.
    let base = FileCoverage {
        all: false,
        path: "/path/to/file".to_string(),
        statement_map: IndexedMap::new(),
        fn_map: IndexedMap::new(),
        branch_map: IndexedMap::from_pairs(vec![
            (0, Branch::from_line(BranchType::If, 1, Default::default())),
            (1, Branch::from_line(BranchType::If, 2, Default::default())),
            (2, Branch::from_line(BranchType::Switch, 2, Default::default())),
        ]),
        s: IndexedMap::new(),
        f: IndexedMap::new(),
        b: IndexedMap::from_pairs(vec![
            (0, vec![1, 0]),
            (1, vec![1, 0]),
            (2, vec![0, 0, 0, 1]),
        ]),
        b_t: None,
    };
    let coverage = base.get_branch_coverage_by_line();
    assert_eq!(coverage.get(1), Some(&Coverage::new(1, 2, 5000)));
    assert_eq!(coverage.get(2), Some(&Coverage::new(2, 6, 3333)));
}

#[test]
fn merging_identical_copy_doubles_counts() {
    let mut first = base_coverage();
    first.s.insert(0, 3);
    first.f.insert(0, 2);
    first.b.insert(0, vec![1, 4]);
    let copy = first.clone();

    first.merge(&copy);

    assert_eq!(first.s.len(), 4);
    assert_eq!(first.f.len(), 1);
    assert_eq!(first.b.len(), 1);
    assert_eq!(first.s.get(0), Some(&6));
    assert_eq!(first.f.get(0), Some(&4));
    assert_eq!(first.b.get(0), Some(&vec![2, 8]));
}

#[test]
fn totals_are_independent_of_merge_order() {
    let mut a = base_coverage();
    let mut b = base_coverage();
    let mut c = base_coverage();
    a.s.insert(0, 1);
    a.b.insert(0, vec![1, 0]);
    b.s.insert(1, 2);
    b.f.insert(0, 1);
    c.s.insert(3, 1);
    c.b.insert(0, vec![0, 5]);

    // (a + b) + c
    let mut left = a.clone();
    left.merge(&b);
    left.merge(&c);

    // a + (b + c), and also other orders entirely.
    let mut right = b.clone();
    right.merge(&c);
    let mut right_total = a.clone();
    right_total.merge(&right);

    let mut swapped = c.clone();
    swapped.merge(&b);
    swapped.merge(&a);

    assert_eq!(left.to_summary(), right_total.to_summary());
    assert_eq!(left.to_summary(), swapped.to_summary());
}

#[test]
fn merge_aligns_by_location_as_if_indices_matched() {
    // Two records with the same four statement locations under shifted
    // indices produce the same totals as two records with equal indices.
    let mut shifted_first = base_coverage();
    shifted_first.s.insert(0, 1);

    let mut shifted_second = FileCoverage {
        all: false,
        path: "/path/to/file".to_string(),
        statement_map: IndexedMap::from_pairs(vec![
            (1, Range::new(1, 1, 1, 100)),
            (2, Range::new(2, 1, 2, 50)),
            (3, Range::new(2, 51, 2, 100)),
            (4, Range::new(2, 101, 3, 100)),
        ]),
        fn_map: IndexedMap::new(),
        branch_map: IndexedMap::new(),
        s: IndexedMap::from_pairs(vec![(1, 4), (2, 0), (3, 2), (4, 0)]),
        f: IndexedMap::new(),
        b: IndexedMap::new(),
        b_t: None,
    };
    shifted_second.fn_map = shifted_first.fn_map.clone();
    shifted_second.branch_map = shifted_first.branch_map.clone();
    shifted_second.f = shifted_first.f.clone();
    shifted_second.b = shifted_first.b.clone();

    let mut aligned_first = shifted_first.clone();
    let mut aligned_second = shifted_second.clone();
    aligned_second.statement_map = aligned_first.statement_map.clone();
    aligned_second.s = IndexedMap::from_pairs(vec![(0, 4), (1, 0), (2, 2), (3, 0)]);

    shifted_first.merge(&shifted_second);
    aligned_first.merge(&aligned_second);

    assert_eq!(shifted_first.to_summary(), aligned_first.to_summary());
    assert_eq!(shifted_first.s.get(0), Some(&5));
    assert_eq!(shifted_first.s.get(2), Some(&2));
}

#[test]
fn percent_is_rounded_to_hundredths() {
    assert_eq!(istanbul_oxide::percent(1, 3), 3333);
    assert_eq!(istanbul_oxide::percent(2, 3), 6667);
    assert_eq!(istanbul_oxide::percent(1, 2), 5000);
    assert_eq!(istanbul_oxide::percent(0, 4), 0);
    // Nothing to measure counts as fully covered.
    assert_eq!(istanbul_oxide::percent(0, 0), 10000);
}

#[test]
fn empty_coverage_summary_is_fully_covered() {
    let cov = FileCoverage::empty("x.js".to_string(), false);
    let summary = cov.to_summary();
    assert_eq!(summary.statements, Totals::new(0, 0, 0, 10000));
    assert_eq!(summary.lines, Totals::new(0, 0, 0, 10000));
    assert_eq!(summary.functions, Totals::new(0, 0, 0, 10000));
    assert_eq!(summary.branches, Totals::new(0, 0, 0, 10000));
    assert_eq!(summary.branches_true, None);
}

#[test]
fn branch_merge_pads_shorter_path_list_with_zeros() {
    // One branch gains an extra path in the second record: the shorter
    // hit list is zero-extended, never truncated.
    let mut first = base_coverage();
    first.b.insert(0, vec![2, 1]);
    let mut second = base_coverage();
    second.b.insert(0, vec![1, 1, 7]);

    first.merge(&second);
    assert_eq!(first.b.get(0), Some(&vec![3, 2, 7]));
}

#[test]
fn from_file_coverage_copies_the_record() {
    let mut cov = base_coverage();
    cov.s.insert(2, 9);
    cov.b_t = Some(IndexedMap::from_pairs(vec![(0, vec![1, 2])]));
    let copy = FileCoverage::from_file_coverage(&cov);
    assert_eq!(copy, cov);
}

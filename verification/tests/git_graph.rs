//! Tests of the git graph parser.
use ferrite_core::markdown::mermaid::git_graph::parse_git_graph;

#[test]
fn test_git_graph_commits_and_branches() {
    let src = "gitGraph
    commit
    commit id: \"feat\"
    branch develop
    checkout develop
    commit msg: \"work\"
    checkout main
    merge develop";
    let g = parse_git_graph(src).unwrap();
    assert_eq!(g.commits.len(), 4);
    assert_eq!(g.commits[0].id, "c1");
    assert_eq!(g.commits[0].branch, "main");
    assert_eq!(g.commits[1].id, "feat");
    assert_eq!(g.commits[2].id, "c3");
    assert_eq!(g.commits[2].branch, "develop");
    assert_eq!(g.commits[2].message, Some("work".to_string()));
    assert_eq!(g.commits[3].id, "m4");
    assert!(g.commits[3].is_merge);
    assert_eq!(g.commits[3].merge_from, Some("develop".to_string()));
    assert_eq!(g.commits[3].message, Some("Merge develop".to_string()));
    assert_eq!(g.commits[3].branch, "main");
    assert_eq!(g.branches.len(), 2);
    assert_eq!(g.branches[1].name, "develop");
    assert_eq!(g.branches[1].color_idx, 1);
}

#[test]
fn test_git_graph_checkout_creates_branch_and_merge_id() {
    let g = parse_git_graph("gitGraph\n checkout feature\n commit\n checkout main\n merge feature id: 'm-x'").unwrap();
    assert_eq!(g.branches.len(), 2);
    assert_eq!(g.commits[0].branch, "feature");
    assert_eq!(g.commits[1].id, "m-x");
    assert_eq!(g.commits[1].merge_from, Some("feature".to_string()));
}

#[test]
fn test_git_graph_id_piece_stops_at_next_id() {
    let g = parse_git_graph("gitGraph\n commit id: \"a\" msg: \"b\"").unwrap();
    assert_eq!(g.commits[0].id, "a\" msg: \"b");
    assert_eq!(g.commits[0].message, Some("b".to_string()));
}

#[test]
fn test_git_graph_kelvin_checkout() {
    // `checKout` with a Kelvin sign: the name starts two characters earlier
    let g = parse_git_graph("gitGraph\n chec\u{212A}out dev\n commit").unwrap();
    assert_eq!(g.commits[0].branch, "ut dev");
}

#[test]
fn test_git_graph_no_commits() {
    assert_eq!(parse_git_graph("gitGraph\n branch x").unwrap_err(), "No commits found in git graph");
}

#[test]
fn test_git_branches_distinct_and_colored_by_position() {
    let g = parse_git_graph("gitGraph\n    commit\n    branch dev\n    commit\n    checkout main\n    branch dev\n    checkout feature\n    commit").unwrap();
    let names: Vec<&str> = g.branches.iter().map(|b| b.name.as_str()).collect();
    assert_eq!(names, vec!["main", "dev", "feature"]);
    for (k, b) in g.branches.iter().enumerate() {
        assert_eq!(b.color_idx, k);
    }
    let branch_of: Vec<&str> = g.commits.iter().map(|c| c.branch.as_str()).collect();
    assert_eq!(branch_of, vec!["main", "dev", "feature"]);
}

#[test]
fn test_git_commit_lines_and_merge_flags() {
    assert_eq!(
        parse_git_graph("gitGraph\n    branch dev\n    checkout dev").unwrap_err(),
        "No commits found in git graph"
    );
    let g = parse_git_graph("gitGraph\n    COMMIT\n    branch dev\n    commit\n    checkout main\n    Merge dev").unwrap();
    assert_eq!(g.commits.len(), 3);
    for c in &g.commits {
        assert_eq!(c.is_merge, c.merge_from.is_some());
    }
    assert!(g.commits[2].is_merge);
}

use upper_bounds::dependency::{max_by_dep, Dependency};
use upper_bounds::errors::DependencyParseError::VersionError;
use upper_bounds::errors::UnparseableVersionError;
use upper_bounds::parse;

const FAIL_ONE_REGULAR: &str = "\
[INFO] --- maven-enforcer-plugin:1.4.1:enforce (display-info) @ thing ---
[WARNING] Rule 2: org.apache.maven.plugins.enforcer.RequireUpperBoundDeps failed with message:
Failed while enforcing RequireUpperBoundDeps. The error(s) are [
Require upper bound dependencies error for org.jenkins-ci.plugins.workflow:workflow-api:2.20 paths to dependency are:
+-org.example:thing:1.0
  +-org.jenkins-ci.plugins.workflow:workflow-api:2.20
and
+-org.example:thing:1.0
  +-org.jenkins-ci.plugins.workflow:workflow-step-api:2.19
    +-org.jenkins-ci.plugins.workflow:workflow-api:2.32
]
[INFO] BUILD FAILURE
";

const FAIL_MANAGED: &str = "\
[INFO] --- maven-enforcer-plugin:1.4.1:enforce (display-info) @ thing ---
[WARNING] Rule 2: org.apache.maven.plugins.enforcer.RequireUpperBoundDeps failed with message:
Failed while enforcing RequireUpperBoundDeps. The error(s) are [
Require upper bound dependencies error for com.h2database:h2:1.4.190 paths to dependency are:
+-org.example:thing:1.0
  +-com.h2database:h2:1.4.190 (managed) <-- com.h2database:h2:1.4.185
]
[INFO] BUILD FAILURE
";

const FAIL_MULTIPLE: &str = "\
Failed while enforcing RequireUpperBoundDeps. The error(s) are [
Require upper bound dependencies error for org.slf4j:log4j-over-slf4j:1.7.26 paths to dependency are:
+-org.example:thing:1.0
  +-org.slf4j:log4j-over-slf4j:1.7.26
and
Require upper bound dependencies error for org.slf4j:slf4j-jdk14:1.7.26 paths to dependency are:
+-org.example:thing:1.0
  +-org.slf4j:slf4j-jdk14:1.7.26
and
Require upper bound dependencies error for org.codehaus.groovy:groovy-all:2.4.12 paths to dependency are:
+-org.example:thing:1.0
  +-org.codehaus.groovy:groovy-all:2.4.12
and
Require upper bound dependencies error for org.slf4j:jcl-over-slf4j:1.7.26 paths to dependency are:
+-org.example:thing:1.0
  +-org.slf4j:jcl-over-slf4j:1.7.26
]
";

const SUCCESS: &str = "\
[INFO] --- maven-enforcer-plugin:1.4.1:enforce (display-info) @ thing ---
[INFO] ------------------------------------------------------------------------
[INFO] BUILD SUCCESS
[INFO] ------------------------------------------------------------------------
";

#[test]
fn parse_should_return_vec_of_deps_on_validate_failed_input() {
    let failed = FAIL_ONE_REGULAR;
    let deps = parse(failed).unwrap();
    assert_eq!(
        deps,
        vec![
            Dependency::try_from("org.jenkins-ci.plugins.workflow:workflow-api:2.32").unwrap()
        ]
    )
}

#[test]
fn parse_should_return_vec_of_deps_on_validate_failed_with_managed_input() {
    let failed = FAIL_MANAGED;
    let deps = parse(failed).unwrap();
    assert_eq!(
        deps,
        vec![Dependency::try_from("com.h2database:h2:1.4.190").unwrap()]
    )
}

#[test]
fn parse_should_return_vec_of_deps_on_validate_failed_with_multiple_bound_concflicts_input() {
    let failed = FAIL_MULTIPLE;
    let deps = parse(failed).unwrap();
    assert_eq!(
        deps,
        vec![
            Dependency::try_from("org.codehaus.groovy:groovy-all:2.4.12").unwrap(),
            Dependency::try_from("org.slf4j:jcl-over-slf4j:1.7.26").unwrap(),
            Dependency::try_from("org.slf4j:log4j-over-slf4j:1.7.26").unwrap(),
            Dependency::try_from("org.slf4j:slf4j-jdk14:1.7.26").unwrap(),
        ]
    )
}

#[test]
fn parse_should_return_empty_vec_on_validate_successful_input() {
    let success = SUCCESS;
    let deps = parse(success).unwrap();
    assert_eq!(deps, vec![])
}

#[test]
fn parse_dedups_a_dependency_flagged_twice() {
    let log = "\
Require upper bound dependencies error for com.h2database:h2:1.4.185 paths to dependency are:
+-org.example:thing:1.0
  +-com.h2database:h2:1.4.190
and
Require upper bound dependencies error for com.h2database:h2:1.4.185 paths to dependency are:
+-org.example:other:2.0
  +-com.h2database:h2:1.4.185
";
    let deps = parse(log).unwrap();
    assert_eq!(
        deps,
        vec![Dependency::try_from("com.h2database:h2:1.4.190").unwrap()]
    )
}

#[test]
fn parse_fails_fast_on_a_broken_candidate_version() {
    let log = "\
Require upper bound dependencies error for com.h2database:h2:1.4.190 paths to dependency are:
+-org.example:thing:1.0
  +-com.h2database:h2:broken
";
    assert_eq!(
        parse(log),
        Err(VersionError(
            "com.h2database".to_string(),
            "h2".to_string(),
            UnparseableVersionError::from("broken"),
        ))
    )
}

#[test]
fn max_by_dep_picks_the_highest_version_anywhere_in_the_log() {
    let log = "\
com.h2database:h2:1.4.185 appears here
and com.h2database:h2:1.4.200 appears there
while com.h2database:h2:1.4.190 appears in between
";
    let dep = Dependency::try_from("com.h2database:h2:1.4.190").unwrap();
    let resolved = max_by_dep(dep, log).unwrap();
    assert_eq!(
        resolved,
        Dependency::try_from("com.h2database:h2:1.4.200").unwrap()
    )
}

#[test]
fn max_by_dep_is_idempotent_on_the_same_log() {
    let log = "\
Require upper bound dependencies error for org.jenkins-ci.plugins.workflow:workflow-api:2.20 paths to dependency are:
  +-org.jenkins-ci.plugins.workflow:workflow-api:2.32
  +-org.jenkins-ci.plugins.workflow:workflow-api:2.6
";
    let dep = Dependency::try_from("org.jenkins-ci.plugins.workflow:workflow-api:2.20").unwrap();
    let once = max_by_dep(dep, log).unwrap();
    let expected = Dependency::try_from("org.jenkins-ci.plugins.workflow:workflow-api:2.32").unwrap();
    assert_eq!(once, expected);
    let twice = max_by_dep(once, log).unwrap();
    assert_eq!(twice, expected);
}

#[test]
fn max_by_dep_keeps_the_own_version_when_it_is_the_highest() {
    let log = "nothing about this dependency at all";
    let dep = Dependency::try_from("com.h2database:h2:1.4.190").unwrap();
    let resolved = max_by_dep(dep, log).unwrap();
    assert_eq!(
        resolved,
        Dependency::try_from("com.h2database:h2:1.4.190").unwrap()
    )
}

#[test]
fn group_and_artifact_are_matched_literally_not_as_patterns() {
    // The dots in the group must not match arbitrary characters: `comXh2...`
    // mentions would otherwise be picked up as candidates.
    let log = "\
Require upper bound dependencies error for com.h2database:h2:1.4.190 paths to dependency are:
  +-comXh2database:h2:9.9.9
";
    let dep = parse(log).unwrap();
    assert_eq!(
        dep,
        vec![Dependency::try_from("com.h2database:h2:1.4.190").unwrap()]
    )
}

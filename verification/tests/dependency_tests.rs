use upper_bounds::dependency::Dependency;
use upper_bounds::errors::DependencyParseError::{CoordinateError, VersionError};
use upper_bounds::errors::UnparseableVersionError;
use upper_bounds::version::{Segment, Version};
use std::cmp::Ordering;

#[test]
fn dependency_from_should_parse_dependency_correctly() {
    assert_eq!(
        Dependency::try_from("com.h2database:h2:1.4.190").unwrap(),
        Dependency {
            group_id: "com.h2database".to_string(),
            artifact_id: "h2".to_string(),
            version: Version::try_from("1.4.190").unwrap(),
        }
    )
}

#[test]
fn dependency_from_with_missing_parts_should_result_in_coordinate_error() {
    assert_eq!(
        Dependency::try_from("com.h2database:h2"),
        Err(CoordinateError("com.h2database:h2".to_string()))
    )
}

#[test]
fn dependency_from_with_missing_version_should_result_in_coordinate_error() {
    assert_eq!(
        Dependency::try_from("com.h2database:h2:"),
        Err(CoordinateError("com.h2database:h2:".to_string()))
    );
    assert_eq!(
        Dependency::try_from("com.h2database:h2: "),
        Err(CoordinateError("com.h2database:h2: ".to_string()))
    )
}

#[test]
fn dependency_from_with_broken_version_should_result_in_version_error() {
    assert_eq!(
        Dependency::try_from("com.h2database:h2:broken"),
        Err(VersionError(
            "com.h2database".to_string(),
            "h2".to_string(),
            UnparseableVersionError::from("broken"),
        ))
    )
}

#[test]
fn dependency_from_with_empty_group_or_artifact_is_coordinate_error() {
    assert_eq!(
        Dependency::try_from(":h2:1.0"),
        Err(CoordinateError(":h2:1.0".to_string()))
    );
    assert_eq!(
        Dependency::try_from("com.h2database::1.0"),
        Err(CoordinateError("com.h2database::1.0".to_string()))
    );
    assert_eq!(
        Dependency::try_from("a:b:c:d"),
        Err(CoordinateError("a:b:c:d".to_string()))
    );
}

#[test]
fn version_parses_into_numeric_segments() {
    let version = Version::try_from("1.4.190").unwrap();
    assert_eq!(version.as_str(), "1.4.190");
    assert_eq!(
        version.parts(),
        &vec![Segment::Number(1), Segment::Number(4), Segment::Number(190)]
    );
}

#[test]
fn version_explodes_hyphenated_text_segments() {
    let version = Version::try_from("2.32-1").unwrap();
    assert_eq!(
        version.parts(),
        &vec![Segment::Number(2), Segment::Number(32), Segment::Number(1)]
    );
    let mixed = Version::try_from("2.0-beta-1").unwrap();
    assert_eq!(
        mixed.parts(),
        &vec![
            Segment::Number(2),
            Segment::Number(0),
            Segment::Text("beta".to_string()),
            Segment::Number(1),
        ]
    );
}

#[test]
fn version_without_any_number_is_unparseable() {
    assert_eq!(
        Version::try_from("broken"),
        Err(UnparseableVersionError::from("broken"))
    );
    assert_eq!(Version::try_from(""), Err(UnparseableVersionError::from("")));
    assert_eq!(
        Version::try_from("..."),
        Err(UnparseableVersionError::from("..."))
    );
    // A digit run too large for a numeric segment stays text, so nothing
    // numeric is left here.
    assert_eq!(
        Version::try_from("99999999999"),
        Err(UnparseableVersionError::from("99999999999"))
    );
}

#[test]
fn version_ordering_follows_exploded_segments() {
    let a = Version::try_from("2.32").unwrap();
    let b = Version::try_from("2.32-1").unwrap();
    assert_eq!(a.cmp(&b), Ordering::Less);
    assert_eq!(b.cmp(&a), Ordering::Greater);

    let c = Version::try_from("2.4").unwrap();
    assert_eq!(b.cmp(&c), Ordering::Greater);

    // Trailing zero segments are neutral.
    let d = Version::try_from("1.0.0").unwrap();
    let e = Version::try_from("1").unwrap();
    assert_eq!(d.cmp(&e), Ordering::Equal);

    // A trailing text segment makes a version smaller.
    let f = Version::try_from("1.0-beta").unwrap();
    let g = Version::try_from("1.0").unwrap();
    assert_eq!(f.cmp(&g), Ordering::Less);
}

#[test]
fn dependency_ordering_is_lexicographic() {
    let a = Dependency::try_from("org.codehaus.groovy:groovy-all:2.4.12").unwrap();
    let b = Dependency::try_from("org.slf4j:jcl-over-slf4j:1.7.26").unwrap();
    let c = Dependency::try_from("org.slf4j:log4j-over-slf4j:1.7.26").unwrap();
    assert_eq!(a.cmp(&b), Ordering::Less);
    assert_eq!(b.cmp(&c), Ordering::Less);
    assert_eq!(c.cmp(&b), Ordering::Greater);
    let d = Dependency::try_from("org.slf4j:jcl-over-slf4j:1.7.25").unwrap();
    assert_eq!(d.cmp(&b), Ordering::Less);
    let b_again = Dependency::try_from("org.slf4j:jcl-over-slf4j:1.7.26").unwrap();
    assert_eq!(b.cmp(&b_again), Ordering::Equal);
}

use filterfs::filter::Filter;
use filterfs::pattern::PatternRule;

#[test]
fn include_simple() {
    let filter = Filter::new(&[PatternRule::new_include("*.txt").unwrap()], &[]);

    // include all dirs, no rules
    assert!(filter.include_dir(""));
    assert!(filter.include_dir("test"));
    assert!(filter.include_dir("test/testd"));

    // matches include rule
    assert!(filter.include_file("test.txt"));
    assert!(filter.include_file("dir/test.txt"));
    assert!(filter.include_file("dir/subdir/test.txt"));

    // does not match include rule
    assert!(!filter.include_file("test.pdf"));
    assert!(!filter.include_file("dir/test.pdf"));
    assert!(!filter.include_file("dir/subdir/test.pdf"));
}

#[test]
fn exclude_simple() {
    let filter = Filter::new(&[PatternRule::new_exclude("*.pdf").unwrap()], &[]);

    // include all dirs, no rules
    assert!(filter.include_dir(""));
    assert!(filter.include_dir("test"));
    assert!(filter.include_dir("test/testd"));

    // does not match exclude
    assert!(filter.include_file("test.txt"));
    assert!(filter.include_file("dir/test.txt"));
    assert!(filter.include_file("dir/subdir/test.txt"));

    // matches exclude
    assert!(!filter.include_file("test.pdf"));
    assert!(!filter.include_file("dir/test.pdf"));
    assert!(!filter.include_file("dir/subdir/test.pdf"));
}

#[test]
fn dir_include() {
    let filter = Filter::new(&[], &[PatternRule::new_include("*cool*").unwrap()]);

    // does not match include
    assert!(!filter.include_dir(""));
    assert!(!filter.include_dir("thislamedir"));
    assert!(!filter.include_dir("thislamedir/thislamesubdir"));

    // matches include
    assert!(filter.include_dir("thiscooldir"));
    assert!(filter.include_dir("thiscooldir/thiscoolsubdir"));

    // no rules, include all files
    assert!(filter.include_file("test.txt"));
    assert!(filter.include_file("dir/test.txt"));
    assert!(filter.include_file("dir/subdir/test.txt"));

    assert!(filter.include_file("test.pdf"));
    assert!(filter.include_file("dir/test.pdf"));
    assert!(filter.include_file("dir/subdir/test.pdf"));
}

#[test]
fn dir_exclude() {
    let filter = Filter::new(&[], &[PatternRule::new_exclude("*lame*").unwrap()]);

    // include does not match
    assert!(!filter.include_dir(""));
    assert!(!filter.include_dir("thislamedir"));
    assert!(!filter.include_dir("thislamedir/thislamesubdir"));

    // include matches
    assert!(filter.include_dir("thiscooldir"));
    assert!(filter.include_dir("thiscooldir/thiscoolsubdir"));

    // all include rules matches for the following files
    assert!(filter.include_file("test.txt"));
    assert!(filter.include_file("dir/test.txt"));
    assert!(filter.include_file("dir/subdir/test.txt"));

    assert!(filter.include_file("test.pdf"));
    assert!(filter.include_file("dir/test.pdf"));
    assert!(filter.include_file("dir/subdir/test.pdf"));
}

#[test]
fn combined_rules() {
    let filter = Filter::new(
        &[
            PatternRule::new_include("*.txt").unwrap(),
            PatternRule::new_exclude("*hidden*").unwrap(),
        ],
        &[
            PatternRule::new_include("*cool*").unwrap(),
            PatternRule::new_exclude("*lame*").unwrap(),
        ],
    );

    // will not match include rule
    assert!(!filter.include_dir(""));

    // matches exclude rule
    assert!(!filter.include_dir("thislamedir"));
    assert!(!filter.include_dir("thislamedir/thislamesubdir"));

    // matches include but not exclude
    assert!(filter.include_dir("thiscooldir"));
    assert!(filter.include_dir("thiscooldir/thiscoolsubdir"));

    // matches include but also exclude
    assert!(!filter.include_dir("thiscoolbutlamedir"));
    assert!(!filter.include_dir("thiscoolbutlamedir/thiscoolbutlamesubdir"));

    // matches include
    assert!(filter.include_file("test.txt"));
    assert!(filter.include_file("dir/test.txt"));
    assert!(filter.include_file("dir/subdir/test.txt"));

    // matches include but also exclude
    assert!(!filter.include_file("testhidden.txt"));
    assert!(!filter.include_file("dir/testhidden.txt"));
    assert!(!filter.include_file("dir/subdir/testhidden.txt"));
}

#[test]
fn pattern_rule_examples() {
    let include_txt = PatternRule::new_include("*.txt").unwrap();
    assert!(include_txt.include_path("/some/file.txt"));
    assert!(!include_txt.include_path("/some/file.pdf"));

    let exclude_txt = PatternRule::new_exclude("*.txt").unwrap();
    assert!(!exclude_txt.include_path("/some/file.txt"));
    assert!(exclude_txt.include_path("/some/file.pdf"));

    // no file name: never let through
    assert!(!include_txt.include_path("/some/.."));
    assert!(!exclude_txt.include_path("/"));
    assert!(!exclude_txt.include_name(None));
    assert!(exclude_txt.include_name(Some("a.pdf")));
}

#[test]
fn invalid_globs_are_refused() {
    let e = PatternRule::new_include("a***").unwrap_err();
    assert_eq!(e.pos, 3);
    assert!(PatternRule::new_exclude("[abc").is_err());
    assert!(PatternRule::new_include("[abc]").is_ok());
}

#[test]
fn empty_filter_shows_everything() {
    let filter = Filter::empty();
    assert!(filter.include_file("any/file.bin"));
    assert!(filter.include_dir("any/dir"));
    assert!(filter.include_file_name(None));
    assert!(filter.include_dir_name(None));
}

#[test]
fn excluded_name_is_hidden_whatever_the_includes() {
    let filter = Filter::new(
        &[
            PatternRule::new_include("*.pdf").unwrap(),
            PatternRule::new_include("secret*").unwrap(),
            PatternRule::new_exclude("secret*").unwrap(),
        ],
        &[],
    );
    assert!(filter.include_file("a/doc.pdf"));
    assert!(!filter.include_file("a/secret.pdf"));
    assert!(!filter.include_file("a/notes.txt"));
    // a name that is not text matches no glob, so a rule decides against it
    assert!(!filter.include_file_name(None));
}

#[test]
fn rules_judge_the_final_component_only() {
    let filter = Filter::new(&[PatternRule::new_include("test*").unwrap()], &[PatternRule::new_exclude("dir").unwrap()]);
    assert!(filter.include_file("dir/test.txt"));
    assert!(filter.include_file("dir/subdir/test.txt/"));
    assert!(!filter.include_file("test/other.txt"));
    // the directory named by the path is its last component
    assert!(!filter.include_dir("a/b/dir"));
    assert!(filter.include_dir("dir/b"));
    // a path ending in `..` has no file name
    assert!(!filter.include_file("test/.."));
}

#[test]
fn rule_order_does_not_matter() {
    let rule = |i: usize| match i {
        0 => PatternRule::new_include("*.pdf").unwrap(),
        1 => PatternRule::new_exclude("doc1*").unwrap(),
        _ => PatternRule::new_include("*.txt").unwrap(),
    };
    let rules = |order: [usize; 3]| order.iter().map(|&i| rule(i)).collect::<Vec<_>>();
    let f1 = Filter::new(&rules([0, 1, 2]), &rules([2, 1, 0]));
    let f2 = Filter::new(&rules([2, 0, 1]), &rules([1, 0, 2]));
    for name in ["doc1.pdf", "doc2.pdf", "a.txt", "b.md", "dir/doc1.txt"] {
        assert_eq!(f1.include_file(name), f2.include_file(name), "{}", name);
        assert_eq!(f1.include_dir(name), f2.include_dir(name), "{}", name);
    }
    assert!(!f1.include_file("doc1.pdf"));
    assert!(f1.include_file("doc2.pdf"));
    assert!(f1.include_file("a.txt"));
    assert!(!f1.include_file("b.md"));
}

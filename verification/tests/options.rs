use filterfs::filter::Filter;
use filterfs::options::{MountOptions, OptionError, OptionNote};

#[test]
fn options_build_rules_in_order() {
    let mut o = MountOptions::new();
    assert!(matches!(o.apply("incl", Some("*.pdf")), Ok(None)));
    assert!(matches!(o.apply("excl", Some("secret*")), Ok(None)));
    assert!(matches!(o.apply("dincl", Some("*cool*")), Ok(None)));
    assert!(matches!(o.apply("dexcl", Some("*lame*")), Ok(None)));
    assert_eq!(o.file_rules.len(), 2);
    assert_eq!(o.dir_rules.len(), 2);
    let f = Filter::new(&o.file_rules, &o.dir_rules);
    assert!(f.include_file("a/doc.pdf"));
    assert!(!f.include_file("a/secret.pdf"));
    assert!(f.include_dir("x/thiscooldir"));
    assert!(!f.include_dir("x/coolbutlame"));
}

#[test]
fn options_prune_and_flags() {
    let mut o = MountOptions::new();
    assert_eq!(o.prune_depth, 0);
    assert!(!o.allow_other);
    assert!(matches!(o.apply("prune", Some("12")), Ok(None)));
    assert_eq!(o.prune_depth, 12);
    assert!(matches!(o.apply("prune", Some("+3")), Ok(None)));
    assert_eq!(o.prune_depth, 3);
    assert!(matches!(o.apply("allow_other", None), Ok(None)));
    assert!(o.allow_other);
    assert!(matches!(o.apply("rw", None), Ok(Some(OptionNote::ReadWriteUnsupported))));
    match o.apply("frobnicate", Some("1")) {
        Ok(Some(OptionNote::Unknown { key })) => assert_eq!(key, "frobnicate"),
        _ => panic!("expected an unknown option"),
    }
    assert_eq!(o.prune_depth, 3);
}

#[test]
fn options_refused() {
    let mut o = MountOptions::new();
    match o.apply("incl", None) {
        Err(OptionError::MissingValue { key }) => assert_eq!(key, "incl"),
        _ => panic!("expected a missing value"),
    }
    match o.apply("prune", Some("x1")) {
        Err(OptionError::BadNumber { value, parse_error }) => {
            assert_eq!(value, "x1");
            assert_eq!(parse_error.to_string(), "invalid digit found in string");
        }
        _ => panic!("expected a bad number"),
    }
    match o.apply("prune", Some("-1")) {
        Err(OptionError::BadNumber { .. }) => {}
        _ => panic!("expected a bad number"),
    }
    match o.apply("dexcl", Some("a***")) {
        Err(OptionError::BadGlob { key, value, glob_error }) => {
            assert_eq!(key, "dexcl");
            assert_eq!(value, "a***");
            assert_eq!(glob_error.pos, 3);
        }
        _ => panic!("expected a bad glob"),
    }
    assert!(o.file_rules.is_empty());
    assert!(o.dir_rules.is_empty());
    assert_eq!(o.prune_depth, 0);
}

#[test]
fn option_string_is_taken_in_order() {
    let (o, notes) = match MountOptions::parse("incl=*.pdf,,rw,excl=doc1*,prune=2,weird,dexcl=l*,allow_other") {
        Ok(r) => r,
        Err(_) => panic!("the options are valid"),
    };
    assert_eq!(o.file_rules.len(), 2);
    assert_eq!(o.dir_rules.len(), 1);
    assert_eq!(o.prune_depth, 2);
    assert!(o.allow_other);
    assert_eq!(notes.len(), 2);
    assert!(matches!(notes[0], OptionNote::ReadWriteUnsupported));
    assert!(matches!(&notes[1], OptionNote::Unknown { key } if key == "weird"));
    let f = Filter::new(&o.file_rules, &o.dir_rules);
    assert!(f.include_file("a/doc2.pdf"));
    assert!(!f.include_file("a/doc1.pdf"));
    assert!(!f.include_file("a/x.txt"));
    assert!(!f.include_dir("src/lol"));

    // no options at all
    let (o, notes) = match MountOptions::parse("") {
        Ok(r) => r,
        Err(_) => panic!("no options are valid"),
    };
    assert!(o.file_rules.is_empty() && o.dir_rules.is_empty() && !o.allow_other && o.prune_depth == 0);
    assert!(notes.is_empty());

    // the first refused option ends it
    assert!(matches!(MountOptions::parse("incl=*.pdf,prune=x,incl"), Err(OptionError::BadNumber { value, .. }) if value == "x"));
    assert!(matches!(MountOptions::parse("rw,incl"), Err(OptionError::MissingValue { key }) if key == "incl"));
    assert!(matches!(MountOptions::parse("dincl=[,prune"), Err(OptionError::BadGlob { key, value, .. }) if key == "dincl" && value == "["));
}

use arborio::everest::{celeste_module_yaml, from_entries, EverestModuleVersion, EverestYaml, EverestYamlLoadError};
use arborio::sid::{SIDFields, Side};
use regex::Regex;

#[test]
fn side_parse_letters() {
    assert_eq!(Side::parse("A"), Some(Side::A));
    assert_eq!(Side::parse(""), Some(Side::A));
    assert_eq!(Side::parse("B"), Some(Side::B));
    assert_eq!(Side::parse("H"), Some(Side::B));
    assert_eq!(Side::parse("C"), Some(Side::C));
    assert_eq!(Side::parse("X"), Some(Side::C));
    assert_eq!(Side::parse("D"), None);
    assert_eq!(Side::parse("AB"), None);
    assert_eq!(Side::parse("a"), None);
}

#[test]
fn side_index_and_text() {
    assert_eq!(Side::A.idx(), 0);
    assert_eq!(Side::B.idx(), 1);
    assert_eq!(Side::C.idx(), 2);
    assert_eq!(Side::A.to_string(), "A");
    assert_eq!(Side::B.to_string(), "B");
    assert_eq!(Side::C.to_string(), "C");
    assert_eq!(Side::default(), Side::A);
}

#[test]
fn sid_example_from_message() {
    let f = SIDFields::parse("rhelmot/mymap/1B-Creekside").unwrap();
    assert_eq!(f.order, 1);
    assert_eq!(f.mode, Side::B);
    assert_eq!(f.name, "Creekside");
    assert_eq!(f.campaign, "rhelmot/mymap");
}

#[test]
fn sid_failure_message() {
    let err = SIDFields::parse("nothing").err().unwrap();
    assert_eq!(
        err,
        "Failed to parse SID. Must be in the format <username>/<campaign>/<order><side>-<name>, e.g. rhelmot/mymap/1B-Creekside"
    );
}

/// The fields the regex of the SID format gives, the way the format reads them.
fn reference(sid: &str) -> Option<(usize, Side, String, String)> {
    let re = Regex::new(r#"^(?P<campaign>[^/\\]+([/\\][^/\\]+))?[/\\](?:(?P<order>[0-9]+)(?P<side>[ABCHX]?)-)?(?P<name>.+?)(?:-(?P<sideAlt>[ABCHX]?))?$"#).unwrap();
    let parsed = re.captures(sid)?;
    let campaign = parsed.name("campaign");
    let order = parsed.name("order");
    let side = parsed.name("side").or_else(|| parsed.name("sideAlt"));
    let name = parsed.name("name");
    match (campaign, order, side, name) {
        (Some(campaign), Some(order), Some(side), Some(name))
            if !campaign.as_str().is_empty() && !order.as_str().is_empty() && !name.as_str().is_empty() =>
        {
            Some((
                order.as_str().parse().unwrap(),
                Side::parse(side.as_str()).unwrap(),
                name.as_str().to_string(),
                campaign.as_str().to_string(),
            ))
        }
        _ => None,
    }
}

#[test]
fn sid_agrees_with_the_format_regex() {
    let cases = [
        "rhelmot/mymap/1B-Creekside",
        "rhelmot/mymap/1-Creekside",
        "rhelmot\\mymap\\12X-Name-B",
        "rhelmot/mymap/3-Name-",
        "rhelmot/mymap/3H-N-X",
        "rhelmot/mymap/3-N",
        "rhelmot/mymap/3-",
        "rhelmot/mymap/3A-",
        "rhelmot/mymap/3A-x",
        "rhelmot/mymap/3Z-x",
        "rhelmot/mymap/x-1",
        "rhelmot/mymap/",
        "rhelmot/mymap",
        "/mymap/1-x",
        "a//1-x",
        "a/b/c/1-x",
        "a/b/1-x/y",
        "a/b/1-x\ny",
        "a\n/b/1-x",
        "a/b/1-x-",
        "a/b/1--",
        "a/b/1-ab-C",
        "a/b/007C-Éclat",
        "a/b/1B-x-AB",
        "",
        "a/b/1-é-X",
    ];
    for case in cases {
        let ours = SIDFields::parse(case).ok().map(|f| (f.order, f.mode, f.name.to_string(), f.campaign.to_string()));
        assert_eq!(ours, reference(case), "{:?}", case);
    }
}

#[test]
fn version_parse_and_print() {
    let v: EverestModuleVersion = "1.4.0.0".parse().unwrap();
    assert_eq!(v, EverestModuleVersion(vec![1, 4, 0, 0]));
    assert_eq!(v.to_string(), "1.4.0.0");
    assert_eq!(EverestModuleVersion::parse("-3.+2"), Ok(EverestModuleVersion(vec![-3, 2])));
    assert_eq!(EverestModuleVersion::parse("7"), Ok(EverestModuleVersion(vec![7])));
    assert_eq!(EverestModuleVersion::parse("2147483647"), Ok(EverestModuleVersion(vec![i32::MAX])));
    assert_eq!(EverestModuleVersion::parse("-2147483648"), Ok(EverestModuleVersion(vec![i32::MIN])));
}

#[test]
fn version_parse_errors() {
    assert_eq!(EverestModuleVersion::parse(""), Err("unable to parse integer"));
    assert_eq!(EverestModuleVersion::parse("1..2"), Err("unable to parse integer"));
    assert_eq!(EverestModuleVersion::parse("1.2."), Err("unable to parse integer"));
    assert_eq!(EverestModuleVersion::parse("1.a"), Err("unable to parse integer"));
    assert_eq!(EverestModuleVersion::parse("2147483648"), Err("unable to parse integer"));
    assert_eq!(EverestModuleVersion::parse("-"), Err("unable to parse integer"));
    assert_eq!(EverestModuleVersion::parse(" 1"), Err("unable to parse integer"));
}

#[test]
fn version_roundtrip() {
    for v in [vec![1, 4, 0, 0], vec![-5], vec![0, -2147483648, 2147483647, 10]] {
        let version = EverestModuleVersion(v);
        let text = version.to_string();
        assert_eq!(EverestModuleVersion::parse(&text), Ok(version));
    }
    assert_eq!(EverestModuleVersion(vec![]).to_string(), "");
}

#[test]
fn celeste_metadata() {
    let y = celeste_module_yaml();
    assert_eq!(y.name, "Celeste");
    assert_eq!(y.version, EverestModuleVersion(vec![1, 4, 0, 0]));
    assert!(y.dll.is_none());
    assert!(y.dependencies.is_empty());
}

#[test]
fn exactly_one_entry() {
    let y = from_entries(vec![celeste_module_yaml()]).unwrap();
    assert_eq!(y.name, "Celeste");
    match from_entries(vec![]) {
        Err(EverestYamlLoadError::NotOneEntry(0)) => {}
        other => panic!("{:?}", other.map(|y: EverestYaml| y.name)),
    }
    match from_entries(vec![celeste_module_yaml(), celeste_module_yaml()]) {
        Err(EverestYamlLoadError::NotOneEntry(2)) => {}
        other => panic!("{:?}", other.map(|y: EverestYaml| y.name)),
    }
}

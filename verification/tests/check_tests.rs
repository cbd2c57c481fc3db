use licensepy::argparse::{Args, Commands, MAX_THREADS};
use licensepy::config::{Config, ConfigError};
use licensepy::dist::{dist_type, is_ignored_dir, is_python_extension, DistType};
use licensepy::metadata::Metadata;
use licensepy::package::parse_metadata;
use licensepy::report::{count_flagged, exit_code, license_groups, package_rows, sort_by_name};
use licensepy::settings::{config_from_document, lookup, read_config, TomlNode};
use licensepy::site::{parse_python_version, parse_site_output, version_text};
use licensepy::version::{check_constraint, meets_python_req, parse_version, version_meets};
use std::cmp::Ordering;

fn lines(text: &str) -> Vec<String> {
    text.lines().map(|l| l.to_string()).collect()
}

fn package(name: &str, license: &[&str], requirements: &[&str], bad_license: bool) -> Metadata {
    Metadata {
        name: name.to_string(),
        license: license.iter().map(|s| s.to_string()).collect(),
        requirements: requirements.iter().map(|s| s.to_string()).collect(),
        bad_license,
    }
}

#[test]
fn metadata_of_a_package() {
    let text = "Metadata-Version: 2.1\n\
                Name: numpy\n\
                Version: 2.0\n\
                License-Expression: BSD-3-Clause\n\
                Classifier: License :: OSI Approved :: MIT License\n\
                Classifier: License :: OSI Approved :: Apache Software License\n\
                Classifier: Programming Language :: Python\n\
                License: ignored\n\
                Requires-Dist: coverage ; extra == 'test'\n\
                Requires-Dist: requests>=2.0\n\
                Requires-Dist: typing-extensions (>=4.0)\n\
                Requires-Dist: tomli ; python_version < '3.11'\n\
                Requires-Dist: exceptiongroup; python_version>='3.9'\n\
                Requires-Dist: colorama ; sys_platform == 'win32'\n";
    let avoid = vec!["MIT License".to_string()];
    let m = parse_metadata(&lines(text), &[3, 12, 1], true, &avoid);
    assert_eq!(m.name, "numpy");
    assert_eq!(m.license, vec!["Apache Software License", "BSD-3-Clause", "MIT License"]);
    assert_eq!(m.requirements, vec!["requests", "typing-extensions", "exceptiongroup"]);
    assert!(m.bad_license);

    let flat = parse_metadata(&lines(text), &[3, 12, 1], false, &vec![]);
    assert!(flat.requirements.is_empty());
    assert!(!flat.bad_license);
    assert_eq!(flat.license.len(), 3);

    let old = parse_metadata(&lines(text), &[3, 8, 0], true, &vec![]);
    assert_eq!(old.requirements, vec!["requests", "typing-extensions", "tomli"]);
}

#[test]
fn package_without_license() {
    let m = parse_metadata(&lines("Name: x\nName:  y  \n"), &[3, 12, 1], true, &vec!["?".to_string()]);
    assert_eq!(m.name, "y");
    assert_eq!(m.license, vec!["?"]);
    assert!(!m.bad_license);
    let empty = parse_metadata(&vec![], &[3, 12, 1], true, &vec![]);
    assert_eq!(empty, Metadata { name: String::new(), license: vec!["?".to_string()], requirements: vec![], bad_license: false });
}

#[test]
fn licenses_are_sorted_and_listed_once() {
    let text = "License-Expression: MIT\nLicense-Expression: Apache\nLicense-Expression: MIT\nLicense-Expression: apache\nLicense-Expression: BSD";
    let m = parse_metadata(&lines(text), &[3, 12, 1], false, &vec!["GPL".to_string()]);
    assert_eq!(m.license, vec!["Apache", "BSD", "MIT", "apache"]);
    assert!(!m.bad_license);
}

#[test]
fn version_from_text() {
    assert_eq!(parse_version("3.9", &[3, 12, 7]), [3, 9, 7]);
    assert_eq!(parse_version("3.9.1", &[3, 12, 7]), [3, 9, 1]);
    assert_eq!(parse_version("4", &[3, 12, 7]), [4, 12, 7]);
    assert_eq!(parse_version("", &[3, 12, 7]), [3, 12, 7]);
    assert_eq!(parse_version("x.10.y", &[3, 12, 7]), [3, 10, 7]);
    assert_eq!(parse_version("3..", &[3, 12, 7]), [3, 12, 7]);
}

#[test]
fn versions_are_compared() {
    assert!(version_meets("<=", &[3, 9, 0], &[3, 9, 0]));
    assert!(version_meets(">=", &[3, 9, 0], &[3, 9, 0]));
    assert!(!version_meets("<", &[3, 9, 0], &[3, 9, 0]));
    assert!(!version_meets(">", &[3, 9, 0], &[3, 9, 0]));
    assert!(version_meets("==", &[3, 9, 0], &[3, 9, 0]));
    assert!(!version_meets("!=", &[3, 9, 0], &[3, 9, 0]));
    assert!(version_meets("<", &[3, 9, 9], &[3, 10, 0]));
    assert!(version_meets(">", &[4, 0, 0], &[3, 99, 99]));
    assert!(version_meets("!=", &[3, 9, 1], &[3, 9, 0]));
    assert!(!version_meets("=", &[3, 9, 0], &[3, 9, 0]));
    assert!(!version_meets("~=", &[3, 9, 0], &[3, 9, 0]));
}

#[test]
fn python_requirement_is_checked() {
    assert!(meets_python_req("python_version >= '3.8'", &[3, 12, 1]));
    assert!(!meets_python_req("python_version < '3.8'", &[3, 12, 1]));
    assert!(meets_python_req("python_version == \"3.12\"", &[3, 12, 1]));
    assert!(meets_python_req("python_version<='3.12.1'", &[3, 12, 1]));
    assert!(!meets_python_req("python_version != '3.12'", &[3, 12, 1]));
    assert!(!meets_python_req("python_version >= '3'", &[3, 12, 1]));
    assert!(!meets_python_req("sys_platform == 'win32'", &[3, 12, 1]));
    assert!(!meets_python_req("", &[3, 12, 1]));
}

#[test]
fn constraint_groups_are_checked() {
    let some = |s: &str| Some(s.to_string());
    let groups = Some(vec![some(">=3.8"), some(">="), some("3.8")]);
    assert!(check_constraint(&groups, &[3, 12, 1]));
    assert!(!check_constraint(&None, &[3, 12, 1]));
    assert!(!check_constraint(&Some(vec![some("x")]), &[3, 12, 1]));
    assert!(!check_constraint(&Some(vec![some("x"), None, some("3.8")]), &[3, 12, 1]));
    assert!(!check_constraint(&Some(vec![some("x"), some(">="), some("1.2.3.4")]), &[3, 12, 1]));
    assert!(!check_constraint(&Some(vec![some("x"), some("<"), some("3.8")]), &[3, 12, 1]));
}

#[test]
fn python_version_is_read() {
    assert_eq!(parse_python_version("Python 3.12.1\n"), Some([3, 12, 1]));
    assert_eq!(parse_python_version("3.9.18"), Some([3, 9, 18]));
    assert_eq!(parse_python_version("Python 3.12\n"), None);
    assert_eq!(parse_python_version("Python 3.12.1rc1\n"), None);
    assert_eq!(parse_python_version("Python 3.12.1 \n"), None);
    assert_eq!(parse_python_version(""), None);
    assert_eq!(version_text(&[3, 12, 1]), "3.12.1");
    assert_eq!(version_text(&[0, -2, 100]), "0.-2.100");
}

#[test]
fn site_directories_are_found() {
    let out = "sys.path = [\n    '/home/u/project',\n    '/usr/lib/python313.zip',\n    '/usr/lib/python3.13/site-packages',\n    '/usr/lib/python3/dist-packages',\n]\nUSER_BASE: '/home/u/.local' (exists)\nUSER_SITE: '/home/u/.local/lib/python3.13/site-packages' (doesn't exist)\nENABLE_USER_SITE: True\n";
    assert_eq!(
        parse_site_output(out),
        Some(vec![
            "/usr/lib/python3.13/site-packages".to_string(),
            "/usr/lib/python3/dist-packages".to_string(),
        ])
    );
    assert_eq!(parse_site_output(""), Some(vec![]));
    assert_eq!(parse_site_output("USER_SITE: ' /x/site-packages ' (exists)"), Some(vec!["/x/site-packages".to_string()]));
    assert_eq!(parse_site_output("/x/site-packages"), None);
    assert_eq!(parse_site_output("a '/x/site-packages"), Some(vec!["/x/site-packages".to_string()]));
}

#[test]
fn entries_of_a_package_directory() {
    assert!(matches!(dist_type("p/a.egg-info".to_string(), "a.egg-info", true), Some(DistType::EggDir(p)) if p == "p/a.egg-info"));
    assert!(matches!(dist_type("p".to_string(), "a.egg-info", false), Some(DistType::Info(_))));
    assert!(matches!(dist_type("p".to_string(), "a-1.0.dist-info", true), Some(DistType::DistDir(_))));
    assert!(matches!(dist_type("p".to_string(), "a-1.0.dist-info", false), Some(DistType::Info(_))));
    assert!(dist_type("p".to_string(), "a.py", false).is_none());
    assert!(dist_type("p".to_string(), "dist-info", true).is_none());
    assert!(dist_type("p".to_string(), "", true).is_none());
    assert_eq!(DistType::EggDir("q".to_string()).metadata_file(), Some("PKG-INFO".to_string()));
    assert_eq!(DistType::DistDir("q".to_string()).metadata_file(), Some("METADATA".to_string()));
    assert_eq!(DistType::Info("q".to_string()).metadata_file(), None);
    assert_eq!(DistType::Info("q".to_string()).path(), "q");
}

#[test]
fn directories_that_are_passed_by() {
    assert!(is_ignored_dir("dist"));
    assert!(is_ignored_dir("__pycache__"));
    assert!(is_ignored_dir("licensepy.egg-info"));
    assert!(is_ignored_dir(".git"));
    assert!(is_ignored_dir("."));
    assert!(!is_ignored_dir("src"));
    assert!(!is_ignored_dir("distribution"));
    assert!(!is_ignored_dir("my_dist"));
    assert!(!is_ignored_dir("a.egg-info.bak"));
    assert!(!is_ignored_dir(""));
    assert!(is_python_extension("py"));
    assert!(!is_python_extension("pyc"));
    assert!(!is_python_extension(""));
}

#[test]
fn settings_file_is_read() {
    let text = "[\"tool.licensepy\"]\navoid = [\"GPL\", 3, \"AGPL\"]\nlicensee = \"Acme Corp\"\nlicense_year = 2020\nlicense_header_template = \"# {year} {licensee}\"\n";
    let c = read_config(Some(text), 2025).unwrap();
    assert_eq!(c.avoid, vec!["GPL", "AGPL"]);
    assert_eq!(c.licensee, Some("Acme Corp".to_string()));
    assert_eq!(c.license_year, 2020);
    assert_eq!(c.license_header_template, Some("# {year} {licensee}".to_string()));

    let nested = read_config(Some("[tool.licensepy]\nlicensee = \"Acme\"\n"), 2025).unwrap();
    assert_eq!(nested.licensee, None);
    assert_eq!(nested.license_year, 2025);
    assert!(nested.avoid.is_empty());
    assert_eq!(nested.license_header_template, None);

    let odd = read_config(Some("\"tool.licensepy\" = { license_year = \"x\", licensee = 4, avoid = \"GPL\" }\n"), 1999).unwrap();
    assert_eq!(odd.license_year, 1999);
    assert_eq!(odd.licensee, None);
    assert!(odd.avoid.is_empty());

    let none = read_config(None, 2031).unwrap();
    assert_eq!(none.license_year, 2031);
    assert!(none.avoid.is_empty() && none.licensee.is_none() && none.license_header_template.is_none());

    assert!(matches!(read_config(Some("not toml ["), 2025), Err(ConfigError::InvalidToml)));
    assert_eq!(ConfigError::InvalidToml.message(), "The config file is not valid TOML.");
}

#[test]
fn settings_of_a_document() {
    let inner = vec![
        ("licensee".to_string(), TomlNode::Text("A".to_string())),
        ("licensee".to_string(), TomlNode::Text("B".to_string())),
        ("avoid".to_string(), TomlNode::Array(vec![TomlNode::Boolean(true), TomlNode::Text("X".to_string()), TomlNode::Float])),
    ];
    assert!(matches!(lookup(&inner, "licensee"), Some(TomlNode::Text(s)) if s == "A"));
    assert!(lookup(&inner, "license").is_none());
    let doc = TomlNode::Table(vec![("tool.licensepy".to_string(), TomlNode::Table(inner))]);
    let c = config_from_document(&doc, 7);
    assert_eq!(c.licensee, Some("A".to_string()));
    assert_eq!(c.avoid, vec!["X"]);
    assert_eq!(c.license_year, 7);
    let not_a_table = TomlNode::Table(vec![("tool.licensepy".to_string(), TomlNode::Integer(1))]);
    assert_eq!(config_from_document(&not_a_table, 7).license_year, 7);
    assert_eq!(config_from_document(&TomlNode::Integer(3), 8).license_year, 8);
}

#[test]
fn default_configuration() {
    let c = Config::default();
    assert!(c.avoid.is_empty());
    assert!(c.license_header_template.is_none());
    assert!(c.licensee.is_none());
    assert!(c.license_year >= 2024 && c.license_year <= i64::from(i32::MAX));
    let mut d = Config::with_year(2000);
    d.apply_overrides(&None, &Some(65535));
    assert_eq!(d.license_year, 65535);
    assert_eq!(d.licensee, None);
    d.apply_overrides(&Some("L".to_string()), &None);
    assert_eq!((d.license_year, d.licensee), (65535, Some("L".to_string())));
}

#[test]
fn flagged_packages_are_counted() {
    let deps = vec![
        package("a", &["MIT"], &[], false),
        package("b", &["GPL"], &[], true),
        package("c", &["GPL"], &[], true),
    ];
    assert_eq!(count_flagged(&deps), 2);
    assert_eq!(count_flagged(&vec![]), 0);
    assert_eq!(exit_code(2), Some(2));
    assert_eq!(exit_code(i32::MAX as usize), Some(i32::MAX));
    assert_eq!(exit_code(i32::MAX as usize + 1), None);
}

#[test]
fn packages_are_ordered_by_name() {
    let a = package("alpha", &[], &[], false);
    let b = package("beta", &["x"], &["y"], true);
    let a2 = package("alpha", &["z"], &[], true);
    assert_eq!(a.cmp(&b), Ordering::Less);
    assert_eq!(b.cmp(&a), Ordering::Greater);
    assert_eq!(a.cmp(&a2), Ordering::Equal);
    assert_eq!(a.partial_cmp(&b), Some(Ordering::Less));
    assert_eq!(package("Zeta", &[], &[], false).cmp(&a), Ordering::Less);
    assert_eq!(package("alph", &[], &[], false).cmp(&a), Ordering::Less);
    assert_eq!(package("\u{e9}", &[], &[], false).cmp(&package("z", &[], &[], false)), Ordering::Greater);
    assert_eq!(Metadata::default(), package("", &[], &[], false));
    let deps = vec![b, a, package("Zeta", &[], &[], false), a2];
    assert_eq!(sort_by_name(&deps), vec![2, 1, 3, 0]);
}

#[test]
fn report_by_package() {
    let deps = vec![
        package("zlib", &["Zlib"], &[], false),
        package("app", &["MIT", "GPL"], &["zlib", "evil", "unknown"], false),
        package("evil", &["GPL"], &["zlib"], true),
    ];
    let rows = package_rows(&deps, true, false);
    let shown: Vec<(bool, &str, &str)> =
        rows.iter().map(|r| (r.bad, r.name.as_str(), r.license.as_str())).collect();
    assert_eq!(shown, vec![(false, "app", "MIT & GPL"), (true, "evil", "GPL"), (false, "zlib", "Zlib")]);
    assert_eq!(
        rows[0].requirements,
        Some(vec![("zlib".to_string(), false), ("evil".to_string(), true)])
    );
    assert_eq!(rows[1].requirements, Some(vec![("zlib".to_string(), false)]));
    assert_eq!(rows[2].requirements, None);

    let failing = package_rows(&deps, true, true);
    assert_eq!(failing.len(), 1);
    assert_eq!(failing[0].name, "evil");
    assert_eq!(failing[0].requirements, Some(vec![]));

    let flat = package_rows(&deps, false, false);
    assert!(flat.iter().all(|r| r.requirements.is_none()));
    assert!(package_rows(&vec![], true, false).is_empty());
}

#[test]
fn report_by_license() {
    let deps = vec![
        package("zlib", &["Zlib"], &[], false),
        package("app", &["MIT", "GPL"], &["zlib", "evil", "unknown"], false),
        package("evil", &["GPL"], &["zlib"], true),
    ];
    let avoid = vec!["GPL".to_string()];
    let groups = license_groups(&deps, &avoid, true, false);
    let heads: Vec<(&str, usize, bool)> =
        groups.iter().map(|g| (g.license.as_str(), g.count, g.avoided)).collect();
    assert_eq!(heads, vec![("GPL", 2, true), ("MIT", 1, false), ("Zlib", 1, false)]);
    let names: Vec<&str> = groups[0].members.iter().map(|m| m.name.as_str()).collect();
    assert_eq!(names, vec!["app", "evil"]);
    assert_eq!(
        groups[0].members[0].requirements,
        Some(vec![("zlib".to_string(), false), ("evil".to_string(), true)])
    );
    assert_eq!(groups[2].members[0].requirements, None);

    let failing = license_groups(&deps, &avoid, false, true);
    assert_eq!(failing.len(), 1);
    assert_eq!(failing[0].license, "GPL");
    assert!(failing[0].members.iter().all(|m| m.requirements.is_none()));
    assert!(license_groups(&vec![], &avoid, true, false).is_empty());
}

#[test]
fn threads_are_capped() {
    let check = |n: u8| Commands::Check {
        recursive: false,
        by_package: false,
        ignore_toml: false,
        silent: false,
        fail_print: false,
        num_threads: n,
    };
    assert_eq!(check(1).worker_count(), 1);
    assert_eq!(check(0).worker_count(), 0);
    assert_eq!(check(32).worker_count(), 32);
    assert_eq!(check(33).worker_count(), 32);
    assert_eq!(check(255).worker_count(), usize::from(MAX_THREADS));
    let args = Args {
        command: Commands::Format {
            files: vec![],
            licensee: None,
            license_year: None,
            silent: true,
            dry_run: false,
            num_threads: 200,
        },
    };
    assert_eq!(args.command.worker_count(), 32);
}

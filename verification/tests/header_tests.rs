use licensepy::config::{Config, ConfigError};
use licensepy::extract::find_first_comment;
use licensepy::formatter::{count_fixes, format_content, Formatter};
use licensepy::header::format_header;
use licensepy::matcher::{check_license, match_header, LicenseCheckRes};
use licensepy::writer::{insert_header, update_header};

fn acme_config() -> Config {
    Config {
        license_header_template: Some("# {year} {licensee}".to_string()),
        licensee: Some("Acme Corp".to_string()),
        license_year: 2025,
        avoid: vec![],
    }
}

fn acme_formatter(dry_run: bool) -> Formatter {
    Formatter::new(acme_config(), vec![], &None, &None, true, dry_run).unwrap()
}

#[test]
fn test_format() {
    let config = acme_config();

    let header = format_header(&config).unwrap();
    assert_eq!("# 2025 Acme Corp\n".to_string(), header);

    let test_formatter = acme_formatter(false);

    let test_fixtures = [
        (
            "",                       // content of the file
            "",                       // expected comment block extracted from file
            0,                        // byte offset at which the header would be inserted
            LicenseCheckRes::Missing, // result of check_license
            true,                     // whether the file needs a fix
            "# 2025 Acme Corp\n",     // the expected content of the formatted file
        ),
        ("\n\n", "", 2, LicenseCheckRes::Missing, true, "# 2025 Acme Corp\n"),
        (
            "# Comment",
            "# Comment\n",
            0,
            LicenseCheckRes::Missing,
            true,
            "# 2025 Acme Corp\n\n# Comment",
        ),
        (
            "\n\n# Comment",
            "# Comment\n",
            2,
            LicenseCheckRes::Missing,
            true,
            "# 2025 Acme Corp\n\n# Comment",
        ),
        (
            "#!/usr/bin/python\n\n# Comment",
            "# Comment\n",
            19,
            LicenseCheckRes::Missing,
            true,
            "#!/usr/bin/python\n\n# 2025 Acme Corp\n\n# Comment",
        ),
        (
            "#!/usr/bin/python\n\n# 2025 Acme Corp",
            "# 2025 Acme Corp\n",
            19,
            LicenseCheckRes::Found,
            false,
            "#!/usr/bin/python\n\n# 2025 Acme Corp",
        ),
        (
            "#!/usr/bin/python\n\n# 2024 Acme Corp",
            "# 2024 Acme Corp\n",
            19,
            LicenseCheckRes::Outdated,
            true,
            "#!/usr/bin/python\n\n# 2025 Acme Corp\n\n",
        ),
        (
            "#!/usr/bin/python\n#\n# 2024 Acme Corp\n",
            "#\n# 2024 Acme Corp\n",
            18,
            LicenseCheckRes::Outdated,
            true,
            "#!/usr/bin/python\n#\n# 2025 Acme Corp\n\n",
        ),
        (
            "#!/usr/bin/python\n\n# 2024 Acme Corp\n# ",
            "# 2024 Acme Corp\n# \n",
            19,
            LicenseCheckRes::Outdated,
            true,
            "#!/usr/bin/python\n\n# 2025 Acme Corp\n\n# \n",
        ),
        (
            "#!/usr/bin/python\n# 2024 Acme Corp\n\n# More Comment",
            "# 2024 Acme Corp\n",
            18,
            LicenseCheckRes::Outdated,
            true,
            "#!/usr/bin/python\n# 2025 Acme Corp\n\n\n# More Comment\n",
        ),
        (
            "#!/usr/bin/python\n\n# 2024 Acme Corp\n# Wrong format",
            "# 2024 Acme Corp\n# Wrong format\n",
            19,
            LicenseCheckRes::Outdated,
            true,
            "#!/usr/bin/python\n\n# 2025 Acme Corp\n\n# Wrong format\n",
        ),
    ];

    for (
        idx,
        (
            content,
            expected_comment,
            expected_insert_at,
            expected_check_res,
            expected_format_res,
            expected_final,
        ),
    ) in test_fixtures.into_iter().enumerate()
    {
        let (first_comment, insert_at) = find_first_comment(content);
        assert_eq!(
            expected_comment, first_comment,
            "[find_first_comment first_comment] Failed for fixture {}.",
            idx
        );
        assert_eq!(
            expected_insert_at, insert_at,
            "[find_first_comment insert at] Failed for fixture {}.",
            idx
        );
        let (_, check_res) = check_license(&first_comment, &config);
        assert_eq!(
            check_res, expected_check_res,
            "[check license] Failed for fixture {}.",
            idx
        );
        let outcome = test_formatter.format_file(content);
        assert_eq!(
            expected_format_res, outcome.needs_fix,
            "[format_file format_res] Failed for fixture {}.",
            idx
        );
        let buffer = match outcome.new_content {
            Some(text) => text,
            None => content.to_string(),
        };
        assert_eq!(
            expected_final, buffer,
            "[format_file buffer] Failed for fixture {}.",
            idx
        );
    }
}

#[test]
fn empty_file_gets_the_header() {
    let config = Config {
        license_header_template: Some("# {year} Acme Corp".to_string()),
        licensee: None,
        license_year: 2025,
        avoid: vec![],
    };
    let (block, insert_at) = find_first_comment("");
    assert_eq!(block, "");
    assert_eq!(insert_at, 0);
    let (span, res) = check_license(&block, &config);
    assert_eq!(res, LicenseCheckRes::Missing);
    assert_eq!(span, "");
    let header = format_header(&config).unwrap();
    assert_eq!(insert_header("", &header, insert_at), Some("# 2025 Acme Corp\n".to_string()));
    let f = Formatter::new(config, vec![], &None, &None, true, false).unwrap();
    let outcome = f.format_file("");
    assert!(outcome.needs_fix);
    assert_eq!(outcome.new_content, Some("# 2025 Acme Corp\n".to_string()));
}

#[test]
fn outdated_header_behind_a_directive_is_replaced() {
    let config = Config {
        license_header_template: Some("# {year} Acme Corp".to_string()),
        licensee: None,
        license_year: 2025,
        avoid: vec![],
    };
    let content = "#!/usr/bin/python\n\n# 2024 Acme Corp";
    let (block, _) = find_first_comment(content);
    assert_eq!(block, "# 2024 Acme Corp\n");
    let (span, res) = check_license(&block, &config);
    assert_eq!(res, LicenseCheckRes::Outdated);
    assert_eq!(span, "# 2024 Acme Corp");
    let header = format_header(&config).unwrap();
    assert_eq!(
        update_header(content, &span, &header),
        Some("#!/usr/bin/python\n\n# 2025 Acme Corp\n\n".to_string())
    );
    let f = Formatter::new(config, vec![], &None, &None, true, false).unwrap();
    let outcome = f.format_file(content);
    assert_eq!(outcome.status, LicenseCheckRes::Outdated);
    assert!(outcome.needs_fix);
    assert_eq!(
        outcome.new_content,
        Some("#!/usr/bin/python\n\n# 2025 Acme Corp\n\n".to_string())
    );
}

#[test]
fn current_header_leaves_the_file_alone() {
    let config = Config {
        license_header_template: Some("# {year} Acme Corp".to_string()),
        licensee: None,
        license_year: 2025,
        avoid: vec![],
    };
    let content = "# 2025 Acme Corp";
    let (block, insert_at) = find_first_comment(content);
    assert_eq!(block, "# 2025 Acme Corp\n");
    assert_eq!(insert_at, 0);
    assert_eq!(check_license(&block, &config), (String::new(), LicenseCheckRes::Found));
    let f = Formatter::new(config, vec![], &None, &None, true, false).unwrap();
    let outcome = f.format_file(content);
    assert_eq!(outcome.status, LicenseCheckRes::Found);
    assert!(!outcome.needs_fix);
    assert_eq!(outcome.new_content, None);
}

#[test]
fn template_with_licensee_needs_a_licensee() {
    let config = Config {
        license_header_template: Some("# {year} {licensee}".to_string()),
        licensee: None,
        license_year: 2025,
        avoid: vec![],
    };
    assert_eq!(format_header(&config), Err(ConfigError::MissingLicensee));
    let r = Formatter::new(config.clone(), vec!["a.py".to_string()], &None, &None, true, false);
    assert!(matches!(r, Err(ConfigError::MissingLicensee)));
    let ok = Formatter::new(config, vec![], &Some("Acme Corp".to_string()), &None, true, false);
    assert_eq!(ok.unwrap().header(), "# 2025 Acme Corp\n");
}

#[test]
fn missing_template_is_a_config_error() {
    let config = Config::with_year(2025);
    assert_eq!(format_header(&config), Err(ConfigError::NoTemplate));
    assert!(matches!(
        Formatter::new(config, vec![], &None, &None, false, false),
        Err(ConfigError::NoTemplate)
    ));
    assert_eq!(ConfigError::NoTemplate.message(), "No license header found in config file.");
}

#[test]
fn command_line_comes_before_the_configuration() {
    let f = Formatter::new(
        acme_config(),
        vec!["x.py".to_string()],
        &Some("Other Ltd".to_string()),
        &Some(1999u16),
        false,
        true,
    )
    .unwrap();
    assert_eq!(f.header(), "# 1999 Other Ltd\n");
    assert_eq!(f.config().license_year, 1999);
    assert_eq!(f.config().licensee, Some("Other Ltd".to_string()));
    assert_eq!(f.files(), &vec!["x.py".to_string()]);
    assert!(f.dry_run());
    assert!(!f.silent());
}

#[test]
fn check_only_run_rewrites_nothing() {
    let f = acme_formatter(true);
    let outcome = f.format_file("print(1)\n");
    assert_eq!(outcome.status, LicenseCheckRes::Missing);
    assert!(outcome.needs_fix);
    assert_eq!(outcome.new_content, None);
    let outdated = f.format_file("# 2001 Acme Corp\n");
    assert_eq!(outdated.status, LicenseCheckRes::Outdated);
    assert!(outdated.needs_fix);
    assert_eq!(outdated.new_content, None);
}

#[test]
fn fixing_twice_finds_the_header() {
    let f = acme_formatter(false);
    for content in [
        "",
        "print(1)\n",
        "#!/usr/bin/python\n\nimport os\n",
        "# some comment\nx = 1\n",
        "# 2019 Acme Corp\nx = 1\n",
        "#!/bin/sh\n# mypy: strict\n# 2019 Acme Corp\n# more\n",
    ] {
        let first = f.format_file(content);
        assert!(first.needs_fix);
        let fixed = first.new_content.unwrap();
        let second = f.format_file(&fixed);
        assert_eq!(second.status, LicenseCheckRes::Found, "content {:?}", content);
        assert!(!second.needs_fix);
        assert_eq!(second.new_content, None);
    }
}

#[test]
fn inserted_header_is_found_again() {
    let config = Config {
        license_header_template: Some("Copyright {year} {licensee}\n\n  All rights reserved.  ".to_string()),
        licensee: Some("Acme Corp".to_string()),
        license_year: 2031,
        avoid: vec![],
    };
    let header = format_header(&config).unwrap();
    assert_eq!(header, "# Copyright 2031 Acme Corp\n# \n# All rights reserved.\n");
    let content = "#!/usr/bin/env python3\n\n\"\"\"Docs.\"\"\"\n";
    let (block, at) = find_first_comment(content);
    assert_eq!(check_license(&block, &config).1, LicenseCheckRes::Missing);
    let fixed = insert_header(content, &header, at).unwrap();
    assert_eq!(
        fixed,
        "#!/usr/bin/env python3\n\n# Copyright 2031 Acme Corp\n# \n# All rights reserved.\n\"\"\"Docs.\"\"\"\n"
    );
    let (block2, _) = find_first_comment(&fixed);
    assert_eq!(block2, header);
    assert_eq!(check_license(&block2, &config), (String::new(), LicenseCheckRes::Found));
}

#[test]
fn year_that_is_no_number_is_missing() {
    let t = "# Copyright {year} Acme";
    assert_eq!(match_header("# Copyright MMXX Acme\n", t, 2025).1, LicenseCheckRes::Missing);
    assert_eq!(match_header("# Copyright 20x5 Acme\n", t, 2025).1, LicenseCheckRes::Missing);
    assert_eq!(match_header("# Copyright  Acme\n", t, 2025).1, LicenseCheckRes::Missing);
    assert_eq!(
        match_header("# Copyright 99999999999999999999 Acme\n", t, 2025).1,
        LicenseCheckRes::Missing
    );
    assert_eq!(match_header("# Copyright +2025 Acme\n", t, 2025).1, LicenseCheckRes::Found);
    assert_eq!(match_header("# Copyright -7 Acme\n", t, -7).1, LicenseCheckRes::Found);
}

#[test]
fn other_year_is_outdated_with_the_matched_lines() {
    let t = "# Copyright {year} Acme\n# Licensed under MIT";
    let block = "# Copyright 2020 Acme\n# Licensed under MIT\n";
    assert_eq!(
        match_header(block, t, 2025),
        ("# Copyright 2020 Acme\n# Licensed under MIT".to_string(), LicenseCheckRes::Outdated)
    );
    let longer = "# -*- coding: utf-8 -*-\n# Copyright 2020 Acme\n# Licensed under MIT\n# tail\n";
    assert_eq!(
        match_header(longer, t, 2025),
        ("# Copyright 2020 Acme\n# Licensed under MIT".to_string(), LicenseCheckRes::Outdated)
    );
}

#[test]
fn leading_comments_do_not_hide_the_header() {
    let t = "# Copyright {year} Acme\n# Licensed under MIT";
    let block = "# mypy: ignore-errors\n# pylint: skip-file\n# Copyright 2025 Acme\n# Licensed under MIT\n";
    assert_eq!(match_header(block, t, 2025), (String::new(), LicenseCheckRes::Found));
}

#[test]
fn header_that_breaks_off_is_missing() {
    let t = "# Copyright {year} Acme\n# Licensed under MIT";
    let block = "# Copyright 2025 Acme\n# something else\n# Copyright 2025 Acme\n# Licensed under MIT\n";
    assert_eq!(match_header(block, t, 2025).1, LicenseCheckRes::Missing);
    assert_eq!(match_header("# Copyright 2025 Acme\n", t, 2025).1, LicenseCheckRes::Missing);
    assert_eq!(match_header("", t, 2025).1, LicenseCheckRes::Missing);
}

#[test]
fn year_of_a_line_before_the_header_does_not_count() {
    let t = "# {year} Acme Corp";
    let block = "# 2020 Foo Bar\n# 2025 Acme Corp\n";
    assert_eq!(match_header(block, t, 2025), (String::new(), LicenseCheckRes::Found));
}

#[test]
fn words_are_parted_by_any_white_space() {
    let t = "Copyright\t{year}   Acme";
    assert_eq!(match_header("#   Copyright 2025 Acme  \n", t, 2025).1, LicenseCheckRes::Found);
    assert_eq!(match_header("## Copyright\u{a0}2024\tAcme\n", t, 2025).1, LicenseCheckRes::Outdated);
}

#[test]
fn blank_line_ends_the_block() {
    let (block, at) = find_first_comment("# 2025 Acme Corp\n\n# more\n");
    assert_eq!(block, "# 2025 Acme Corp\n");
    assert_eq!(at, 0);
    let (inner, _) = find_first_comment("# a\n#\n# b\n   \n# c\n");
    assert_eq!(inner, "# a\n#\n# b\n");
}

#[test]
fn insert_offset_counts_bytes() {
    let content = "#!/usr/bin/env \u{e9}t\u{e9}\r\n \u{2003}\n# c\r\ncode";
    let (block, at) = find_first_comment(content);
    assert_eq!(block, "# c\n");
    assert_eq!(at, "#!/usr/bin/env \u{e9}t\u{e9}\r\n \u{2003}\n".len());
    let out = insert_header(content, "# H\n", at).unwrap();
    assert_eq!(out, "#!/usr/bin/env \u{e9}t\u{e9}\r\n \u{2003}\n# H\n\n# c\r\ncode");
    assert_eq!(insert_header(content, "# H\n", 16), None);
    assert_eq!(insert_header(content, "# H\n", content.len() + 1), None);
    assert_eq!(insert_header("ab", "# H\n", 2), Some("ab# H\n".to_string()));
}

#[test]
fn file_without_final_line_feed() {
    let (block, at) = find_first_comment("#!/bin/sh");
    assert_eq!((block.as_str(), at), ("", 9));
    let (block, at) = find_first_comment("#!/bin/sh\n# c");
    assert_eq!((block.as_str(), at), ("# c\n", 10));
    let (block, at) = find_first_comment("x = 1");
    assert_eq!((block.as_str(), at), ("", 0));
}

#[test]
fn update_needs_the_span_in_the_content() {
    assert_eq!(update_header("a\nb\n", "zz", "# H\n"), None);
    assert_eq!(update_header("", "", "# H\n"), Some("# H\n\n".to_string()));
    assert_eq!(update_header("# old\n# c\n", "# old\n", "# H\n"), Some("# H\n\n# c\n".to_string()));
    assert_eq!(update_header("x # old", "# old", "# H\n"), Some("x # H\n\n".to_string()));
}

#[test]
fn header_lines_get_the_marker() {
    let config = Config {
        license_header_template: Some("  one {year}\n#two\r\n\n## three {licensee} ".to_string()),
        licensee: Some("L".to_string()),
        license_year: -12,
        avoid: vec![],
    };
    assert_eq!(format_header(&config).unwrap(), "# one -12\n#two\n# \n## three L\n");
    let none = Config {
        license_header_template: Some(String::new()),
        licensee: None,
        license_year: 2025,
        avoid: vec![],
    };
    assert_eq!(format_header(&none).unwrap(), "");
    assert_eq!(check_license("# anything\n", &none).1, LicenseCheckRes::Found);
}

#[test]
fn fixes_are_counted() {
    assert_eq!(count_fixes(&vec![]), 0);
    assert_eq!(count_fixes(&vec![true, false, true, true]), 3);
    let o = format_content("x\n", "# H\n", "H", 1, false);
    assert_eq!(o.new_content, Some("# H\nx\n".to_string()));
}

fn rights_config() -> Config {
    Config {
        license_header_template: Some("Copyright {year} Acme\n\nAll rights reserved.".to_string()),
        licensee: None,
        license_year: 2025,
        avoid: vec![],
    }
}

#[test]
fn header_followed_by_a_blank_line() {
    let f = acme_formatter(false);
    let content = "# 2025 Acme Corp\n\nimport os\n";
    let (block, at) = find_first_comment(content);
    assert_eq!((block.as_str(), at), ("# 2025 Acme Corp\n", 0));
    let outcome = f.format_file(content);
    assert_eq!(outcome.status, LicenseCheckRes::Found);
    assert!(!outcome.needs_fix);
    assert_eq!(outcome.new_content, None);

    let config = rights_config();
    let whole = "# Copyright 2025 Acme\n#\n# All rights reserved.\n\n# notes\nx = 1\n";
    let (block, _) = find_first_comment(whole);
    assert_eq!(block, "# Copyright 2025 Acme\n#\n# All rights reserved.\n");
    assert_eq!(check_license(&block, &config), (String::new(), LicenseCheckRes::Found));
}

#[test]
fn header_with_a_blank_line_inside() {
    let config = rights_config();
    assert_eq!(
        format_header(&config).unwrap(),
        "# Copyright 2025 Acme\n# \n# All rights reserved.\n"
    );
    let broken = "# Copyright 2025 Acme\n\n# All rights reserved.\n";
    let (block, at) = find_first_comment(broken);
    assert_eq!((block.as_str(), at), ("# Copyright 2025 Acme\n", 0));
    assert_eq!(check_license(&block, &config), (String::new(), LicenseCheckRes::Missing));

    let f = Formatter::new(config, vec![], &None, &None, true, false).unwrap();
    let outcome = f.format_file(broken);
    assert_eq!(outcome.status, LicenseCheckRes::Missing);
    assert_eq!(
        outcome.new_content,
        Some(
            "# Copyright 2025 Acme\n# \n# All rights reserved.\n\n# Copyright 2025 Acme\n\n# All rights reserved.\n"
                .to_string()
        )
    );
    let again = f.format_file(outcome.new_content.as_ref().unwrap());
    assert_eq!(again.status, LicenseCheckRes::Found);
    assert_eq!(again.new_content, None);

    let marked = f.format_file("# Copyright 2024 Acme\n#\n# All rights reserved.\n");
    assert_eq!(marked.status, LicenseCheckRes::Outdated);
    assert_eq!(
        marked.new_content,
        Some("# Copyright 2025 Acme\n# \n# All rights reserved.\n\n".to_string())
    );
}

#[test]
fn template_with_its_own_markers() {
    let config = Config {
        license_header_template: Some("   # {year} {licensee}\n\t## kept as it is".to_string()),
        licensee: Some("Acme Corp".to_string()),
        license_year: 2025,
        avoid: vec![],
    };
    let header = format_header(&config).unwrap();
    assert_eq!(header, "# 2025 Acme Corp\n## kept as it is\n");
    assert_eq!(check_license(&header, &config), (String::new(), LicenseCheckRes::Found));
    let f = Formatter::new(config, vec![], &None, &None, true, false).unwrap();
    let first = f.format_file("import os\n");
    assert_eq!(first.status, LicenseCheckRes::Missing);
    let fixed = first.new_content.unwrap();
    assert_eq!(fixed, "# 2025 Acme Corp\n## kept as it is\nimport os\n");
    assert_eq!(f.format_file(&fixed).status, LicenseCheckRes::Found);
    let old = f.format_file("# 1999 Acme Corp\n# kept as it is\nimport os\n");
    assert_eq!(old.status, LicenseCheckRes::Outdated);
    assert_eq!(
        old.new_content,
        Some("# 2025 Acme Corp\n## kept as it is\n\nimport os\n".to_string())
    );
}

#[test]
fn leading_comments_change_nothing() {
    let t = "# Copyright {year} Acme\n# Licensed under MIT";
    let lead = "# mypy: ignore-errors\n# Copyright Acme\n";
    for block in [
        "# Copyright 2025 Acme\n# Licensed under MIT\n",
        "# Copyright 2021 Acme\n# Licensed under MIT\n# tail\n",
        "# Copyright 2025 Acme\n# Licensed under GPL\n",
        "# nothing\n",
        "",
    ] {
        let together = format!("{}{}", lead, block);
        assert_eq!(match_header(&together, t, 2025), match_header(block, t, 2025), "{:?}", block);
    }
}

#[test]
fn directive_without_line_feed() {
    let f = acme_formatter(false);
    let first = f.format_file("#!/bin/sh");
    assert_eq!(first.status, LicenseCheckRes::Missing);
    assert_eq!(first.new_content, Some("#!/bin/sh# 2025 Acme Corp\n".to_string()));
    let closed = f.format_file("#!/bin/sh\n");
    assert_eq!(closed.new_content, Some("#!/bin/sh\n# 2025 Acme Corp\n".to_string()));
    assert_eq!(f.format_file("#!/bin/sh\n# 2025 Acme Corp\n").status, LicenseCheckRes::Found);
}

#[test]
fn span_is_replaced_where_it_first_occurs() {
    let f = acme_formatter(false);
    let content = "#!/bin/sh # 2024 Acme Corp\n# 2024 Acme Corp\n";
    let outcome = f.format_file(content);
    assert_eq!(outcome.status, LicenseCheckRes::Outdated);
    assert_eq!(
        outcome.new_content,
        Some("#!/bin/sh # 2025 Acme Corp\n\n# 2024 Acme Corp\n".to_string())
    );
    assert_eq!(
        update_header("# a # 2024 B\n# 2024 B\n", "# 2024 B", "# 2025 B\n"),
        Some("# a # 2025 B\n\n# 2024 B\n".to_string())
    );
}

#[test]
fn year_inside_a_word_is_no_year() {
    let config = Config {
        license_header_template: Some("(c){year} Acme".to_string()),
        licensee: None,
        license_year: 2025,
        avoid: vec![],
    };
    assert_eq!(format_header(&config).unwrap(), "# (c)2025 Acme\n");
    assert_eq!(check_license("# (c)2025 Acme\n", &config).1, LicenseCheckRes::Missing);
    assert_eq!(check_license("# (c){year} Acme\n", &config).1, LicenseCheckRes::Found);
}

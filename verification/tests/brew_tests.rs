use tool_bridge::brew::{
    brew_info_items, brew_install_args, detect_brew_path, first_installed_version,
    get_brew_executable, get_installed_packages, list_outdated, run_brew, search_names,
    BrewInstalledCaskV2, BrewInstalledField, BrewInstalledFormulaV2, BrewInstalledVersion,
    BrewQueryCaskV2, BrewQueryFormulaV2, HomebrewItemType, OutdatedEntry,
};

#[test]
fn detect_picks_the_first_existing_candidate() {
    assert_eq!(
        detect_brew_path(&vec![false, true, false]).as_deref(),
        Some("/usr/local/bin/brew")
    );
    assert_eq!(
        detect_brew_path(&vec![true, true, true]).as_deref(),
        Some("/opt/homebrew/bin/brew")
    );
    assert_eq!(
        detect_brew_path(&vec![false, false, true]).as_deref(),
        Some("/home/linuxbrew/.linuxbrew/bin/brew")
    );
    assert_eq!(detect_brew_path(&vec![false, false, false]), None);
    assert_eq!(
        get_brew_executable(&vec![false, true, false]).as_deref(),
        Some("/usr/local/bin/brew")
    );
}

#[test]
fn first_installed_version_reads_every_shape() {
    let v = BrewInstalledField::Versions(vec![
        BrewInstalledVersion { version: "1.2".to_string() },
        BrewInstalledVersion { version: "1.1".to_string() },
    ]);
    assert_eq!(first_installed_version(&v).as_deref(), Some("1.2"));
    assert_eq!(
        first_installed_version(&BrewInstalledField::Versions(Vec::new())),
        None
    );
    let s = BrewInstalledField::VersionStrings(vec!["2.0".to_string()]);
    assert_eq!(first_installed_version(&s).as_deref(), Some("2.0"));
    let one = BrewInstalledField::VersionString("3.3".to_string());
    assert_eq!(first_installed_version(&one).as_deref(), Some("3.3"));
    assert_eq!(first_installed_version(&BrewInstalledField::Absent), None);
}

#[test]
fn installed_listing_covers_formulae_then_casks() {
    let formulae = vec![BrewInstalledFormulaV2 {
        name: "jq".to_string(),
        desc: Some("json tool".to_string()),
        installed: BrewInstalledField::VersionString("1.7".to_string()),
    }];
    let casks = vec![BrewInstalledCaskV2 {
        token: "firefox".to_string(),
        desc: None,
        installed: BrewInstalledField::Absent,
    }];
    let items = get_installed_packages(&formulae, &casks);
    assert_eq!(items.len(), 2);
    assert_eq!(items[0].name, "jq");
    assert_eq!(items[0].description, "json tool");
    assert!(matches!(items[0].item_type, HomebrewItemType::Formula));
    assert_eq!(items[0].version.as_deref(), Some("1.7"));
    assert_eq!(items[1].name, "firefox");
    assert_eq!(items[1].description, "");
    assert!(matches!(items[1].item_type, HomebrewItemType::Cask));
    assert_eq!(items[1].version, None);
}

#[test]
fn query_listing_uses_stable_and_cask_versions() {
    let formulae = vec![BrewQueryFormulaV2 {
        name: "ripgrep".to_string(),
        desc: Some("search".to_string()),
        stable_version: Some("14.1".to_string()),
    }];
    let casks = vec![BrewQueryCaskV2 {
        token: "kitty".to_string(),
        desc: None,
        version: Some("0.32".to_string()),
    }];
    let items = brew_info_items(&formulae, &casks);
    assert_eq!(items.len(), 2);
    assert_eq!(items[0].version.as_deref(), Some("14.1"));
    assert_eq!(items[1].version.as_deref(), Some("0.32"));
    assert_eq!(items[1].description, "");
}

#[test]
fn outdated_listing_drops_entries_without_installed_versions() {
    let formulae = vec![
        OutdatedEntry {
            name: "git".to_string(),
            installed_versions: vec!["2.44".to_string(), "2.43".to_string()],
            current_version: "2.45".to_string(),
        },
        OutdatedEntry {
            name: "odd".to_string(),
            installed_versions: Vec::new(),
            current_version: "9".to_string(),
        },
    ];
    let casks = vec![OutdatedEntry {
        name: "zoom".to_string(),
        installed_versions: vec!["5.0".to_string()],
        current_version: "6.0".to_string(),
    }];
    let items = list_outdated(&formulae, &casks);
    assert_eq!(items.len(), 2);
    assert_eq!(items[0].name, "git");
    assert_eq!(items[0].current_version, "2.44");
    assert_eq!(items[0].latest_version, "2.45");
    assert!(matches!(items[0].item_type, HomebrewItemType::Formula));
    assert_eq!(items[1].name, "zoom");
    assert!(matches!(items[1].item_type, HomebrewItemType::Cask));
}

#[test]
fn search_names_take_the_text_before_the_colon() {
    let out = "jq: json processor\nno colon here\n  yq : yaml processor\n";
    let names = search_names(out);
    assert_eq!(names, vec!["jq".to_string(), "yq".to_string()]);
    assert!(search_names("").is_empty());
}

#[test]
fn brew_run_verdict_trims_or_reports() {
    assert_eq!(run_brew(true, "  1.2.3 \n", "").unwrap(), "1.2.3");
    assert_eq!(
        run_brew(false, "", "not a package").unwrap_err(),
        "brew command failed: not a package"
    );
}

#[test]
fn install_args_follow_the_cask_flag() {
    assert_eq!(
        brew_install_args(&"jq".to_string(), false),
        vec!["install".to_string(), "jq".to_string()]
    );
    assert_eq!(
        brew_install_args(&"kitty".to_string(), true),
        vec!["install".to_string(), "--cask".to_string(), "kitty".to_string()]
    );
}

#[test]
fn progress_run_verdict_reports_the_exit_code() {
    assert!(tool_bridge::brew::run_with_progress_verdict(true, Some(0)).is_ok());
    let e = tool_bridge::brew::run_with_progress_verdict(false, Some(3)).unwrap_err();
    assert_eq!(e, "brew command failed (exit code: Some(3))");
    let e2 = tool_bridge::brew::run_with_progress_verdict(false, None).unwrap_err();
    assert_eq!(e2, "brew command failed (exit code: None)");
}

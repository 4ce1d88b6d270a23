use jetbrains_search_provider::recents::{
    build_recent_items, get_project_name, providers, ConfigLocation, VersionedPath,
};
use jetbrains_search_provider::strutil::{file_name, replace_all, str_eq};
use jetbrains_search_provider::xml::parse_recent_projects;

#[test]
fn versioned_path_extract() {
    let path = dirs::home_dir()
        .expect("Must have homedir for test")
        .join(".config")
        .join("JetBrains")
        .join("IdeaIC2021.1");
    let versioned_path =
        VersionedPath::extract_version(path.to_string_lossy().into_owned()).unwrap();
    assert_eq!(versioned_path.version, (2021, 1))
}

#[test]
fn read_recent_projects() {
    let data: &[u8] = b"<application>\n  <component name=\"RecentProjectsManager\">\n    <option name=\"additionalInfo\">\n      <map>\n        <entry key=\"$USER_HOME$/Code/gh/mdcat\">\n          <value><RecentProjectMetaInfo /></value>\n        </entry>\n        <entry key=\"$USER_HOME$/Code/gh/gnome-search-providers-jetbrains\">\n          <value><RecentProjectMetaInfo /></value>\n        </entry>\n      </map>\n    </option>\n  </component>\n</application>\n";
    let home = dirs::home_dir().unwrap();
    let home_str = home.to_string_lossy().into_owned();
    let projects = parse_recent_projects(data, &home_str).unwrap();

    assert_eq!(
        projects,
        vec![
            home.join("Code").join("gh").join("mdcat").to_string_lossy().into_owned(),
            home.join("Code")
                .join("gh")
                .join("gnome-search-providers-jetbrains")
                .to_string_lossy()
                .into_owned(),
        ]
    )
}

#[test]
fn malformed_documents_are_rejected() {
    assert!(parse_recent_projects(b"<application><unclosed>", "/home/u").is_err());
}

#[test]
fn documents_without_recent_projects_yield_nothing() {
    let data: &[u8] = b"<application><component name=\"Other\" /></application>";
    let projects = parse_recent_projects(data, "/home/u").unwrap();
    assert!(projects.is_empty());
}

#[test]
fn desktop_ids_are_unique() {
    let provs = providers();
    for i in 0..provs.len() {
        for j in (i + 1)..provs.len() {
            assert_ne!(provs[i].desktop_id, provs[j].desktop_id);
        }
    }
}

#[test]
fn dbus_paths_are_unique() {
    let provs = providers();
    let paths: Vec<String> = provs.iter().map(|p| p.objpath()).collect();
    for i in 0..paths.len() {
        for j in (i + 1)..paths.len() {
            assert_ne!(paths[i], paths[j]);
        }
    }
}

#[test]
fn objpath_prefixes_the_relative_path() {
    let provs = providers();
    assert_eq!(provs[0].objpath(), "/de/swsnr/searchprovider/jetbrains/toolbox/clion");
}

#[test]
fn version_is_read_leftmost_and_greedy() {
    let v = VersionedPath::extract_version("IdeaIC2021.1".to_string()).unwrap();
    assert_eq!(v.version, (2021, 1));
    let v = VersionedPath::extract_version("AndroidStudio4.1".to_string()).unwrap();
    assert_eq!(v.version, (4, 1));
    // A backtracking matcher settles on three digits, any character, one digit.
    let v = VersionedPath::extract_version("12345.6".to_string()).unwrap();
    assert_eq!(v.version, (123, 5));
    assert!(VersionedPath::extract_version("NoVersionHere".to_string()).is_none());
    assert!(VersionedPath::extract_version("".to_string()).is_none());
}

#[test]
fn into_path_returns_the_path() {
    let v = VersionedPath::extract_version("/c/CLion2020.3".to_string()).unwrap();
    assert_eq!(v.into_path(), "/c/CLion2020.3");
}

#[test]
fn latest_version_wins_and_later_ties_win() {
    let config = ConfigLocation {
        vendor_dir: "JetBrains".to_string(),
        config_glob: "IdeaIC*".to_string(),
        projects_filename: "recentProjects.xml".to_string(),
    };
    let candidates = vec![
        "/c/JetBrains/IdeaIC2020.3".to_string(),
        "/c/JetBrains/IdeaIC2021.1".to_string(),
        "/c/JetBrains/IdeaIC2019.2".to_string(),
    ];
    let best = config.find_config_dir_of_latest_version(&candidates).unwrap();
    assert_eq!(best.version, (2021, 1));
    assert_eq!(best.path, "/c/JetBrains/IdeaIC2021.1");

    let tie = vec!["/a/Idea2021.1".to_string(), "/b/Idea2021.1".to_string()];
    let best = config.find_config_dir_of_latest_version(&tie).unwrap();
    assert_eq!(best.path, "/b/Idea2021.1");

    let none: Vec<String> = vec!["/a/NoVersion".to_string()];
    assert!(config.find_config_dir_of_latest_version(&none).is_none());
}

#[test]
fn projects_file_path_is_under_options() {
    let config = ConfigLocation {
        vendor_dir: "JetBrains".to_string(),
        config_glob: "IdeaIC*".to_string(),
        projects_filename: "recentProjects.xml".to_string(),
    };
    assert_eq!(
        config.recent_projects_file_in("/c/JetBrains/IdeaIC2021.1"),
        "/c/JetBrains/IdeaIC2021.1/options/recentProjects.xml"
    );
}

#[test]
fn project_name_prefers_the_name_file() {
    assert_eq!(
        get_project_name("/home/u/Code/proj", Some("My Project".to_string())),
        Some("My Project".to_string())
    );
    assert_eq!(get_project_name("/home/u/Code/proj", None), Some("proj".to_string()));
    assert_eq!(get_project_name("/home/u/Code/proj/", None), Some("proj".to_string()));
    assert_eq!(get_project_name("///", None), None);
}

#[test]
fn file_name_takes_the_last_component() {
    assert_eq!(file_name("/a/b/c"), Some("c".to_string()));
    assert_eq!(file_name("/a/b/"), Some("b".to_string()));
    assert_eq!(file_name("plain"), Some("plain".to_string()));
    assert_eq!(file_name("/"), None);
    assert_eq!(file_name(""), None);
}

#[test]
fn replace_all_substitutes_every_occurrence() {
    assert_eq!(replace_all("$USER_HOME$/x", "$USER_HOME$", "/home/u"), "/home/u/x");
    assert_eq!(replace_all("aXbXc", "X", "--"), "a--b--c");
    assert_eq!(replace_all("none", "X", "-"), "none");
}

#[test]
fn str_eq_compares_characters() {
    assert!(str_eq("abc", "abc"));
    assert!(!str_eq("abc", "abd"));
    assert!(!str_eq("abc", "ab"));
}

#[test]
fn duplicate_project_paths_collapse_to_one_item() {
    let projects = vec![
        ("first".to_string(), "/home/u/Code/p".to_string()),
        ("second".to_string(), "/home/u/Code/p".to_string()),
    ];
    let items = build_recent_items("app.desktop", &projects);
    assert_eq!(items.len(), 1);
    let (_, item) = items.get_index(0).unwrap();
    assert_eq!(item.name, "second");
}

#[test]
fn built_items_use_the_derived_ids() {
    let projects = vec![
        ("mdcat".to_string(), "/home/u/Code/mdcat".to_string()),
        ("other".to_string(), "/home/u/Code/other".to_string()),
    ];
    let items = build_recent_items("jetbrains-idea.desktop", &projects);
    assert_eq!(items.len(), 2);
    let (id, item) = items.get_index(0).unwrap();
    assert_eq!(id, "jetbrains-recent-project-jetbrains-idea.desktop-/home/u/Code/mdcat");
    assert_eq!(item.name, "mdcat");
    assert_eq!(item.uri, "/home/u/Code/mdcat");
}

use rustmameui::config::{Config, SettingsError};
use rustmameui::game::Game;
use rustmameui::ui::{
    batch_bounds, batch_count, collect_working_games, context_menu_action, filter_games, lang_code,
    ContextAction, BATCH_SIZE,
};

fn game(rom: &str, description: &str, snap: bool) -> Game {
    Game::new(&rom.to_string(), &description.to_string(), snap)
}

fn settings(items: &[(&str, &str)]) -> Vec<(String, String)> {
    items.iter().map(|(k, v)| (k.to_string(), v.to_string())).collect()
}

fn strings(items: &[&str]) -> Vec<String> {
    items.iter().map(|s| s.to_string()).collect()
}

#[test]
fn default_config_has_empty_paths() {
    let c = Config::default();
    assert!(c.project_config_dir.is_empty());
    assert!(c.mame_executable.is_empty());
    assert!(c.roms_path.is_empty());
    assert!(c.snap_file.is_empty());
}

#[test]
fn config_from_complete_settings() {
    let s = settings(&[
        ("snap_file", "/snaps.zip"),
        ("roms_path", "/roms"),
        ("debug", "1"),
        ("mame_executable", "/usr/bin/mame"),
    ]);
    let c = Config::from_settings("/home/me/.config/rustmameui".to_string(), &s).unwrap();
    assert_eq!(c.project_config_dir, "/home/me/.config/rustmameui");
    assert_eq!(c.mame_executable, "/usr/bin/mame");
    assert_eq!(c.roms_path, "/roms");
    assert_eq!(c.snap_file, "/snaps.zip");
}

#[test]
fn config_reports_the_first_missing_key() {
    let missing = |s: &[(&str, &str)]| match Config::from_settings(String::new(), &settings(s)) {
        Err(SettingsError::MissingConfigKey { key }) => key,
        Ok(_) => panic!("settings were accepted"),
    };
    assert_eq!(missing(&[]), "mame_executable");
    assert_eq!(missing(&[("mame_executable", "m")]), "roms_path");
    assert_eq!(missing(&[("mame_executable", "m"), ("roms_path", "r")]), "snap_file");
    assert_eq!(missing(&[("snap_file", "s"), ("roms_path", "r")]), "mame_executable");
}

#[test]
fn settings_file_content_doubles_backslashes() {
    let mut c = Config::default();
    c.mame_executable = "C:\\MAME\\mame.exe".to_string();
    c.roms_path = "D:\\roms".to_string();
    c.snap_file = "/snaps/snap.zip".to_string();
    assert_eq!(
        c.settings_file_content(),
        "mame_executable = \"C:\\\\MAME\\\\mame.exe\"\nroms_path = \"D:\\\\roms\"\nsnap_file = \"/snaps/snap.zip\"\n"
    );
    assert_eq!(
        Config::default().settings_file_content(),
        "mame_executable = \"\"\nroms_path = \"\"\nsnap_file = \"\"\n"
    );
}

#[test]
fn filter_ignores_case() {
    let items = vec![game("pacman", "Pac-Man", false), game("galaga", "Galaga", false), game("mspacman", "Ms. PAC-MAN", true)];
    let shown: Vec<String> = filter_games(&items, "pac").iter().map(|g| g.rom()).collect();
    assert_eq!(shown, strings(&["pacman", "mspacman"]));
    assert_eq!(filter_games(&items, "").len(), 3);
    assert!(filter_games(&items, "zaxxon").is_empty());
    let upper: Vec<String> = filter_games(&items, "GALA").iter().map(|g| g.rom()).collect();
    assert_eq!(upper, strings(&["galaga"]));
}

#[test]
fn context_menu_offers_remove_in_favourites_or_for_favourites() {
    let favourites = vec![game("pacman", "Pac-Man", false)];
    assert_eq!(context_menu_action(&favourites, &"galaga".to_string(), true), ContextAction::RemoveFavourite);
    assert_eq!(context_menu_action(&favourites, &"pacman".to_string(), false), ContextAction::RemoveFavourite);
    assert_eq!(context_menu_action(&favourites, &"galaga".to_string(), false), ContextAction::AddFavourite);
    assert_eq!(context_menu_action(&Vec::new(), &"".to_string(), false), ContextAction::AddFavourite);
}

#[test]
fn batches_cover_the_roms() {
    assert_eq!(BATCH_SIZE, 100);
    assert_eq!(batch_count(0), 0);
    assert_eq!(batch_count(1), 1);
    assert_eq!(batch_count(100), 1);
    assert_eq!(batch_count(101), 2);
    assert_eq!(batch_bounds(0, 150), (0, 100));
    assert_eq!(batch_bounds(1, 150), (100, 150));
    assert_eq!(batch_bounds(1, 200), (100, 200));
}

#[test]
fn working_games_keep_good_roms_with_defaults() {
    let roms = strings(&["a", "b", "c", "d"]);
    let descriptions = strings(&["A", "B"]);
    let games = collect_working_games(&roms, &descriptions, &vec![true, false, true], &vec![true, true]);
    let parts: Vec<(String, String, bool)> = games.iter().map(|g| (g.rom(), g.description(), g.snap())).collect();
    assert_eq!(
        parts,
        vec![("a".to_string(), "A".to_string(), true), ("c".to_string(), "Unknown Description".to_string(), false)]
    );
}

#[test]
fn lang_code_takes_what_precedes_the_underscore() {
    assert_eq!(lang_code("it_IT.UTF-8"), "it");
    assert_eq!(lang_code("en"), "en");
    assert_eq!(lang_code("_x"), "");
    assert_eq!(lang_code(""), "");
}

#[test]
fn settings_file_paths_read_back_as_written() {
    let unescape = |s: &str| {
        let mut out = String::new();
        let mut chars = s.chars();
        while let Some(c) = chars.next() {
            if c == '\\' {
                if let Some(d) = chars.next() {
                    out.push(d);
                    continue;
                }
            }
            out.push(c);
        }
        out
    };
    let mut c = Config::default();
    c.mame_executable = "\\\\server\\share\\mame.exe".to_string();
    c.roms_path = "a\\".to_string();
    c.snap_file = "\\n".to_string();
    let text = c.settings_file_content();
    let values: Vec<String> = text
        .lines()
        .map(|line| {
            let start = line.find('"').unwrap() + 1;
            unescape(&line[start..line.len() - 1])
        })
        .collect();
    assert_eq!(values, vec![c.mame_executable.clone(), c.roms_path.clone(), c.snap_file.clone()]);
}

use rustmameui::config::Config;
use rustmameui::game::Game;
use rustmameui::games::{
    finish_rom_list, position_of_rom, push_favourite, remove_favourite_rom, roms_verification,
    snap_entry_names, sort, sorted_copy, verifyroms_arguments, RomEntry,
};

fn game(rom: &str, description: &str, snap: bool) -> Game {
    Game::new(&rom.to_string(), &description.to_string(), snap)
}

fn roms_of(games: &[Game]) -> Vec<String> {
    games.iter().map(|g| g.rom()).collect()
}

fn strings(items: &[&str]) -> Vec<String> {
    items.iter().map(|s| s.to_string()).collect()
}

#[test]
fn sort_orders_by_description_and_keeps_ties_in_order() {
    let mut games = vec![
        game("r1", "b", false),
        game("r2", "a", false),
        game("r3", "b", true),
        game("r4", "A", false),
        game("r5", "", false),
    ];
    sort(&mut games);
    assert_eq!(roms_of(&games), strings(&["r5", "r4", "r2", "r1", "r3"]));
}

#[test]
fn sort_compares_descriptions_byte_by_byte() {
    let mut games = vec![
        game("e", "\u{e9}cran", false),
        game("z", "zebra", false),
        game("ab", "ab", false),
        game("a", "a", false),
    ];
    sort(&mut games);
    assert_eq!(roms_of(&games), strings(&["a", "ab", "z", "e"]));
}

#[test]
fn sorting_a_sorted_list_leaves_it_unchanged() {
    let mut games = vec![game("x", "c", false), game("y", "a", false), game("z", "b", false)];
    sort(&mut games);
    let once = roms_of(&games);
    sort(&mut games);
    assert_eq!(roms_of(&games), once);
}

#[test]
fn sort_of_an_empty_list_is_empty() {
    let mut games: Vec<Game> = Vec::new();
    sort(&mut games);
    assert!(games.is_empty());
}

#[test]
fn sorted_copy_sorts_and_copies() {
    let mut games = vec![game("x", "c", false), game("y", "a", true)];
    let copy = sorted_copy(&mut games);
    assert_eq!(roms_of(&games), strings(&["y", "x"]));
    assert_eq!(roms_of(&copy), strings(&["y", "x"]));
    assert!(copy[0].snap());
}

#[test]
fn push_favourite_appends_the_game() {
    let mut favourites = vec![game("a", "A", false)];
    push_favourite(&mut favourites, &game("b", "B", true));
    assert_eq!(roms_of(&favourites), strings(&["a", "b"]));
    assert!(favourites[1].snap());
}

#[test]
fn remove_favourite_takes_out_the_first_match_and_moves_the_last_in() {
    let mut favourites = vec![
        game("a", "A", false),
        game("b", "B", false),
        game("a", "A2", false),
        game("c", "C", false),
    ];
    remove_favourite_rom(&mut favourites, &game("a", "", false));
    assert_eq!(roms_of(&favourites), strings(&["c", "b", "a"]));
    assert_eq!(favourites[2].description(), "A2");
}

#[test]
fn remove_favourite_without_match_changes_nothing() {
    let mut favourites = vec![game("a", "A", false), game("b", "B", false)];
    remove_favourite_rom(&mut favourites, &game("z", "Z", false));
    assert_eq!(roms_of(&favourites), strings(&["a", "b"]));
}

#[test]
fn removing_a_just_added_favourite_restores_the_list() {
    let mut favourites = vec![game("a", "A", false), game("b", "B", true)];
    let g = game("c", "C", false);
    push_favourite(&mut favourites, &g);
    remove_favourite_rom(&mut favourites, &g);
    assert_eq!(roms_of(&favourites), strings(&["a", "b"]));
}

#[test]
fn position_of_rom_finds_the_first() {
    let games = vec![game("a", "A", false), game("b", "B", false), game("b", "B2", false)];
    assert_eq!(position_of_rom(&games, &"b".to_string()), Some(1));
    assert_eq!(position_of_rom(&games, &"q".to_string()), None);
}

#[test]
fn finish_rom_list_keeps_present_roms_sorted_with_their_descriptions() {
    let entries = vec![
        RomEntry { rom: "pacman".to_string(), description: "Pac-Man".to_string() },
        RomEntry { rom: "galaga".to_string(), description: "Galaga".to_string() },
        RomEntry { rom: "missing".to_string(), description: "Missing".to_string() },
        RomEntry { rom: "digdug".to_string(), description: "Dig Dug".to_string() },
    ];
    let (roms, descriptions) = finish_rom_list(entries, &vec![true, true, false, true]);
    assert_eq!(roms, strings(&["digdug", "galaga", "pacman"]));
    assert_eq!(descriptions, strings(&["Dig Dug", "Galaga", "Pac-Man"]));
}

#[test]
fn finish_rom_list_of_nothing_is_empty() {
    let (roms, descriptions) = finish_rom_list(Vec::new(), &Vec::new());
    assert!(roms.is_empty() && descriptions.is_empty());
}

#[test]
fn verifyroms_arguments_name_the_roms_path_and_roms() {
    let mut config = Config::default();
    config.roms_path = "/home/me/roms".to_string();
    let args = verifyroms_arguments(&config, &strings(&["pacman", "galaga"]));
    assert_eq!(args, strings(&["-rp", "/home/me/roms", "-verifyroms", "pacman", "galaga"]));
}

#[test]
fn roms_verification_reads_the_roms_named_on_stderr_as_bad() {
    let roms = strings(&["pacman", "galaga", "dig"]);
    let stderr = "pacman      : pacman.6e (4096 bytes) - NOT FOUND\nromset dig is bad\n";
    assert_eq!(roms_verification(Some(stderr), &roms), vec![false, true, false]);
}

#[test]
fn roms_verification_when_mame_did_not_run_is_all_bad() {
    let roms = strings(&["pacman", "galaga"]);
    assert_eq!(roms_verification(None, &roms), vec![false, false]);
    assert_eq!(roms_verification(Some(""), &roms), vec![true, true]);
}

#[test]
fn roms_verification_of_an_empty_name_is_bad() {
    assert_eq!(roms_verification(Some("anything"), &strings(&[""])), vec![false]);
}

#[test]
fn snap_entry_names_append_png() {
    assert_eq!(
        snap_entry_names(&strings(&["pacman", "1942"])),
        strings(&["pacman.png", "1942.png"])
    );
}

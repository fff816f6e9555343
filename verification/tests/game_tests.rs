use rustmameui::game::Game;

fn game(rom: &str, description: &str, snap: bool) -> Game {
    Game::new(&rom.to_string(), &description.to_string(), snap)
}

#[test]
fn new_game_gives_back_its_parts() {
    let g = game("pacman", "Pac-Man (Midway)", true);
    assert_eq!(g.rom(), "pacman");
    assert_eq!(g.description(), "Pac-Man (Midway)");
    assert!(g.snap());
    let h = game("galaga", "Galaga", false);
    assert!(!h.snap());
}

#[test]
fn has_rom_compares_rom_names() {
    let g = game("pacman", "Pac-Man", false);
    assert!(g.has_rom(&"pacman".to_string()));
    assert!(!g.has_rom(&"Pacman".to_string()));
    assert!(!g.has_rom(&"".to_string()));
}

#[test]
fn snap_entry_name_appends_png() {
    assert_eq!(game("pacman", "Pac-Man", true).snap_entry_name(), "pacman.png");
    assert_eq!(game("", "nothing", true).snap_entry_name(), ".png");
}

#[test]
fn png_data_url_prefixes_the_encoding() {
    assert_eq!(Game::png_data_url("QUJD"), "data:image/png;base64,QUJD");
    assert_eq!(Game::png_data_url(""), "data:image/png;base64,");
}

#[test]
fn snap_data_url_encodes_in_standard_base64() {
    assert_eq!(Game::snap_data_url(b"abc"), "data:image/png;base64,YWJj");
    assert_eq!(Game::snap_data_url(b"ab"), "data:image/png;base64,YWI=");
    assert_eq!(Game::snap_data_url(b"a"), "data:image/png;base64,YQ==");
    assert_eq!(Game::snap_data_url(&[0xfb, 0xff]), "data:image/png;base64,+/8=");
    assert_eq!(Game::snap_data_url(b""), "data:image/png;base64,");
}

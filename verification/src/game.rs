//! A single game entry: its ROM name, its description, and whether a
//! snapshot image is available for it.
use vstd::prelude::*;
use vstd::string::StringExecFns;
use base64::Engine as _;
use crate::sorting::SortKey;
use crate::text::text_bytes;

verus! {

/// A game entry with its ROM name, description and snapshot flag.
#[derive(Clone, Debug, PartialEq)]
pub struct Game {
    /// The name of the game's ROM file, without extension.
    rom: String,
    /// A human-readable description or title of the game.
    description: String,
    /// Whether a snapshot image is available for the game.
    snap: bool,
}

/// What a game entry holds.
pub struct GameView {
    pub rom: Seq<char>,
    pub description: Seq<char>,
    pub snap: bool,
}

impl View for Game {
    type V = GameView;

    closed spec fn view(&self) -> GameView {
        GameView { rom: self.rom@, description: self.description@, snap: self.snap }
    }
}

/// The prefix of the data URL of a PNG image encoded in Base64.
pub open spec fn png_data_url_prefix() -> Seq<char> {
    "data:image/png;base64,"@
}

/// The character of the standard Base64 alphabet for a value below 64:
/// `A`-`Z`, `a`-`z`, `0`-`9`, `+`, `/`.
pub open spec fn base64_digit(v: int) -> char {
    if v < 26 {
        (65 + v) as char
    } else if v < 52 {
        (71 + v) as char
    } else if v < 62 {
        (v - 4) as char
    } else if v == 62 {
        '+'
    } else {
        '/'
    }
}

/// The standard Base64 encoding, with padding, of `data`: each group of three
/// bytes becomes four characters of six bits each; a last group of one or two
/// bytes is completed with zero bits and padded with `=`.
pub open spec fn base64_standard(data: Seq<u8>) -> Seq<char>
    decreases data.len(),
{
    if data.len() == 0 {
        Seq::empty()
    } else if data.len() == 1 {
        seq![base64_digit(data[0] as int / 4), base64_digit((data[0] % 4) * 16), '=', '=']
    } else if data.len() == 2 {
        seq![
            base64_digit(data[0] as int / 4),
            base64_digit((data[0] % 4) * 16 + data[1] / 16),
            base64_digit((data[1] % 16) * 4),
            '=',
        ]
    } else {
        seq![
            base64_digit(data[0] as int / 4),
            base64_digit((data[0] % 4) * 16 + data[1] / 16),
            base64_digit((data[1] % 16) * 4 + data[2] / 64),
            base64_digit(data[2] as int % 64),
        ] + base64_standard(data.skip(3))
    }
}

/// Calls `base64::Engine::encode` on the `STANDARD` engine of the `base64`
/// crate (standard alphabet, with padding). The contract claims that the
/// result is the standard Base64 encoding of `data`.
#[verifier::external_body]
fn encode_base64(data: &[u8]) -> (r: String)
    ensures
        r@ == base64_standard(data@),
{
    base64::engine::general_purpose::STANDARD.encode(data)
}

impl Game {
    /// Creates a game entry.
    pub fn new(rom: &String, description: &String, snap: bool) -> (g: Game)
        ensures
            g@.rom == rom@,
            g@.description == description@,
            g@.snap == snap,
    {
        Game { rom: rom.clone(), description: description.clone(), snap }
    }

    /// The description of the game.
    pub fn description(&self) -> (d: String)
        ensures
            d@ == self@.description,
    {
        self.description.clone()
    }

    /// Whether a snapshot image is available for the game.
    pub fn snap(&self) -> (s: bool)
        ensures
            s == self@.snap,
    {
        self.snap
    }

    /// The ROM name of the game.
    pub fn rom(&self) -> (r: String)
        ensures
            r@ == self@.rom,
    {
        self.rom.clone()
    }

    /// Whether the game's ROM name is `rom`.
    pub fn has_rom(&self, rom: &String) -> (b: bool)
        ensures
            b == (self@.rom == rom@),
    {
        self.rom == *rom
    }

    /// The name of the game's snapshot in the snapshot archive: `<rom>.png`.
    pub fn snap_entry_name(&self) -> (n: String)
        ensures
            n@ == self@.rom + ".png"@,
    {
        self.rom.clone().concat(".png")
    }

    /// The data URL of a PNG image given its Base64 encoding.
    pub fn png_data_url(encoded: &str) -> (url: String)
        ensures
            url@ == png_data_url_prefix() + encoded@,
    {
        let mut url = String::from_str("data:image/png;base64,");
        url.append(encoded);
        url
    }

    /// The data URL (`data:image/png;base64,...`) of the PNG image `png_data`.
    pub fn snap_data_url(png_data: &[u8]) -> (url: String)
        ensures
            url@ == png_data_url_prefix() + base64_standard(png_data@),
    {
        let encoded = encode_base64(png_data);
        Game::png_data_url(encoded.as_str())
    }
}

impl SortKey for Game {
    /// Games are ordered by their description.
    open spec fn sort_key(&self) -> Seq<u8> {
        text_bytes(self@.description)
    }

    fn key_bytes(&self) -> (k: &[u8]) {
        self.description.as_str().as_bytes()
    }

    fn duplicate(&self) -> (r: Game) {
        Game { rom: self.rom.clone(), description: self.description.clone(), snap: self.snap }
    }
}

} // verus!


//! Lists of games: sorting them, keeping the favourites, turning the machines
//! that MAME lists into the list of playable ROMs, and reading the verdicts of
//! `mame -verifyroms` and of the snapshot archive.
use vstd::prelude::*;
use vstd::string::StringExecFns;
use crate::config::Config;
use crate::game::Game;
use crate::sorting::{
    SortKey, has_key, is_stable_sort_of, key_class, lemma_stable_sort_is_permutation, lemma_stable_sort_keeps_items,
    lemma_stable_sort_unique, sort_by_key,
};
use crate::text::{bytes_contain, bytes_contain_exec, bytes_le, text_bytes};

verus! {

/// Whether a game has the description `d`.
pub open spec fn with_description(d: Seq<char>) -> spec_fn(Game) -> bool {
    |g: Game| g@.description == d
}

/// Whether a ROM entry has the ROM name `n`.
pub open spec fn with_rom_name(n: Seq<char>) -> spec_fn(RomEntry) -> bool {
    |e: RomEntry| e.rom@ == n
}

/// The descriptions of `games` never decrease, whole descriptions being
/// compared by their UTF-8 bytes.
pub open spec fn descriptions_in_order(games: Seq<Game>) -> bool {
    forall|i: int, j: int|
        0 <= i < j < games.len() ==> bytes_le(
            text_bytes((#[trigger] games[i])@.description),
            text_bytes((#[trigger] games[j])@.description),
        )
}

/// Sorting games by description puts their whole descriptions in byte order
/// and keeps every game as many times as it occurs.
pub proof fn lemma_sorted_games_by_description(sorted: Seq<Game>, games: Seq<Game>)
    requires
        is_stable_sort_of(sorted, games),
    ensures
        forall|i: int, j: int|
            0 <= i < j < sorted.len() ==> bytes_le(
                text_bytes((#[trigger] sorted[i])@.description),
                text_bytes((#[trigger] sorted[j])@.description),
            ),
        sorted.to_multiset() == games.to_multiset(),
        sorted.len() == games.len(),
        forall|d: Seq<char>|
            #[trigger] sorted.filter(with_description(d)) == games.filter(with_description(d)),
{
    lemma_stable_sort_is_permutation(sorted, games);
    assert forall|d: Seq<char>|
        #[trigger] sorted.filter(with_description(d)) == games.filter(with_description(d)) by {
        let k = text_bytes(d);
        assert(key_class(sorted, k) == key_class(games, k));
        assert forall|g: Game| #[trigger] has_key::<Game>(k)(g) == (g@.description == d) by {
            vstd::utf8::encode_utf8_decode_utf8(g@.description);
            vstd::utf8::encode_utf8_decode_utf8(d);
        }
        assert(has_key::<Game>(k) =~= with_description(d));
    }
    assert forall|i: int, j: int| 0 <= i < j < sorted.len() implies bytes_le(
        text_bytes((#[trigger] sorted[i])@.description),
        text_bytes((#[trigger] sorted[j])@.description),
    ) by {
        assert(bytes_le(sorted[i].sort_key(), sorted[j].sort_key()));
    }
}

/// Sorts games stably by description.
pub fn sort(games: &mut Vec<Game>)
    ensures
        is_stable_sort_of(final(games)@, old(games)@),
        descriptions_in_order(final(games)@),
        final(games)@.to_multiset() == old(games)@.to_multiset(),
        forall|d: Seq<char>|
            #[trigger] final(games)@.filter(with_description(d)) == old(games)@.filter(
                with_description(d),
            ),
{
    sort_by_key(games);
    proof {
        lemma_sorted_games_by_description(games@, old(games)@);
    }
}

/// Sorts games stably by description and returns a copy of the sorted list.
pub fn sorted_copy(games: &mut Vec<Game>) -> (r: Vec<Game>)
    ensures
        is_stable_sort_of(final(games)@, old(games)@),
        descriptions_in_order(final(games)@),
        final(games)@.to_multiset() == old(games)@.to_multiset(),
        forall|d: Seq<char>|
            #[trigger] final(games)@.filter(with_description(d)) == old(games)@.filter(
                with_description(d),
            ),
        r@ == final(games)@,
{
    sort(games);
    let mut r: Vec<Game> = Vec::new();
    let mut i: usize = 0;
    while i < games.len()
        invariant
            i <= games@.len(),
            r@ == games@.take(i as int),
        decreases games@.len() - i,
    {
        r.push(games[i].duplicate());
        assert(r@ =~= games@.take(i + 1));
        i = i + 1;
    }
    assert(games@.take(games@.len() as int) =~= games@);
    r
}

/// Adds a game at the end of the favourites.
pub fn push_favourite(favourites: &mut Vec<Game>, game: &Game)
    ensures
        final(favourites)@ == old(favourites)@.push(*game),
{
    favourites.push(game.duplicate());
}

/// `p` is the first position of `s` that holds a game with ROM name `rom`.
pub open spec fn first_with_rom(s: Seq<Game>, rom: Seq<char>, p: int) -> bool {
    &&& 0 <= p < s.len()
    &&& s[p]@.rom == rom
    &&& forall|i: int| 0 <= i < p ==> (#[trigger] s[i])@.rom != rom
}

/// `s` without its first game with ROM name `rom`, the last game taking its
/// place; `s` itself when no game has that ROM name.
pub open spec fn without_rom(s: Seq<Game>, rom: Seq<char>) -> Seq<Game> {
    if exists|p: int| first_with_rom(s, rom, p) {
        let p = choose|p: int| first_with_rom(s, rom, p);
        s.update(p, s.last()).drop_last()
    } else {
        s
    }
}

/// The first position of a game with ROM name `rom`, if any.
pub fn position_of_rom(games: &Vec<Game>, rom: &String) -> (r: Option<usize>)
    ensures
        r matches Some(p) ==> first_with_rom(games@, rom@, p as int),
        r is None ==> forall|i: int| 0 <= i < games@.len() ==> (#[trigger] games@[i])@.rom != rom@,
{
    let mut i: usize = 0;
    while i < games.len()
        invariant
            i <= games@.len(),
            forall|j: int| 0 <= j < i ==> (#[trigger] games@[j])@.rom != rom@,
        decreases games@.len() - i,
    {
        if games[i].has_rom(rom) {
            return Some(i);
        }
        i = i + 1;
    }
    None
}

/// Removes from the favourites the first game whose ROM name is that of
/// `game`; the last favourite takes its place.
pub fn remove_favourite_rom(favourites: &mut Vec<Game>, game: &Game)
    ensures
        final(favourites)@ == without_rom(old(favourites)@, game@.rom),
{
    let rom = game.rom();
    match position_of_rom(favourites, &rom) {
        Some(p) => {
            proof {
                let s = old(favourites)@;
                let q = choose|q: int| first_with_rom(s, rom@, q);
                assert(first_with_rom(s, rom@, q));
                if q < p {
                    assert(s[q]@.rom != rom@);
                } else if p < q {
                    assert(s[p as int]@.rom != rom@);
                }
            }
            favourites.swap_remove(p);
        },
        None => {
            proof {
                assert(!exists|p: int| first_with_rom(old(favourites)@, rom@, p));
            }
        },
    }
}

/// Removing the game just added to favourites that held no game with its ROM
/// name gives back the favourites as they were.
pub proof fn lemma_remove_undoes_push(favourites: Seq<Game>, game: Game)
    requires
        forall|i: int| 0 <= i < favourites.len() ==> (#[trigger] favourites[i])@.rom != game@.rom,
    ensures
        without_rom(favourites.push(game), game@.rom) == favourites,
{
    let s = favourites.push(game);
    let p = favourites.len() as int;
    assert forall|i: int| 0 <= i < p implies (#[trigger] s[i])@.rom != game@.rom by {
        assert(s[i] == favourites[i]);
    }
    assert(first_with_rom(s, game@.rom, p));
    let q = choose|q: int| first_with_rom(s, game@.rom, q);
    assert(first_with_rom(s, game@.rom, q));
    if q < p {
        assert(s[q] == favourites[q]);
    }
    assert(s.update(p, s.last()).drop_last() =~= favourites);
}

/// A game added to the favourites is still among them once they are sorted:
/// a favourite carries its ROM name, so the context menu offers to remove it.
pub proof fn lemma_added_favourite_is_kept(favourites: Seq<Game>, game: Game, sorted: Seq<Game>)
    requires
        is_stable_sort_of(sorted, favourites.push(game)),
    ensures
        sorted.contains(game),
        exists|i: int| 0 <= i < sorted.len() && (#[trigger] sorted[i])@.rom == game@.rom,
{
    let pushed = favourites.push(game);
    assert(pushed[favourites.len() as int] == game);
    lemma_stable_sort_keeps_items(sorted, pushed, game);
    let i = choose|i: int| 0 <= i < sorted.len() && sorted[i] == game;
    assert(sorted[i]@.rom == game@.rom);
}

/// Sorting the favourites as they were written gives the list that was
/// returned when they were written: two stable sorts of one list are equal.
pub proof fn lemma_stable_sorts_agree<T: SortKey>(a: Seq<T>, b: Seq<T>, s: Seq<T>)
    requires
        is_stable_sort_of(a, s),
        is_stable_sort_of(b, s),
    ensures
        a == b,
{
    lemma_stable_sort_unique(a, b);
}

/// A machine that MAME can emulate well: its ROM name and description.
#[derive(Debug)]
pub struct RomEntry {
    pub rom: String,
    pub description: String,
}

impl SortKey for RomEntry {
    /// ROM entries are ordered by ROM name.
    open spec fn sort_key(&self) -> Seq<u8> {
        text_bytes(self.rom@)
    }

    fn key_bytes(&self) -> (k: &[u8]) {
        self.rom.as_str().as_bytes()
    }

    fn duplicate(&self) -> (r: RomEntry) {
        RomEntry { rom: self.rom.clone(), description: self.description.clone() }
    }
}

/// Sorting ROM entries puts their ROM names in byte order and keeps every
/// entry, with its description, as many times as it occurs.
pub proof fn lemma_rom_entries_sorted_by_name(sorted: Seq<RomEntry>, entries: Seq<RomEntry>)
    requires
        is_stable_sort_of(sorted, entries),
    ensures
        forall|i: int, j: int|
            0 <= i < j < sorted.len() ==> bytes_le(
                text_bytes((#[trigger] sorted[i]).rom@),
                text_bytes((#[trigger] sorted[j]).rom@),
            ),
        sorted.to_multiset() == entries.to_multiset(),
        sorted.len() == entries.len(),
        forall|n: Seq<char>|
            #[trigger] sorted.filter(with_rom_name(n)) == entries.filter(with_rom_name(n)),
{
    lemma_stable_sort_is_permutation(sorted, entries);
    assert forall|n: Seq<char>|
        #[trigger] sorted.filter(with_rom_name(n)) == entries.filter(with_rom_name(n)) by {
        let k = text_bytes(n);
        assert(key_class(sorted, k) == key_class(entries, k));
        assert forall|e: RomEntry| #[trigger] has_key::<RomEntry>(k)(e) == (e.rom@ == n) by {
            vstd::utf8::encode_utf8_decode_utf8(e.rom@);
            vstd::utf8::encode_utf8_decode_utf8(n);
        }
        assert(has_key::<RomEntry>(k) =~= with_rom_name(n));
    }
    assert forall|i: int, j: int| 0 <= i < j < sorted.len() implies bytes_le(
        text_bytes((#[trigger] sorted[i]).rom@),
        text_bytes((#[trigger] sorted[j]).rom@),
    ) by {
        assert(bytes_le(sorted[i].sort_key(), sorted[j].sort_key()));
    }
}

/// The items of `s` whose flag in `keep` is set, in order.
pub open spec fn kept<T>(s: Seq<T>, keep: Seq<bool>) -> Seq<T>
    decreases s.len(),
{
    if s.len() == 0 || keep.len() == 0 {
        Seq::empty()
    } else if keep.last() {
        kept(s.drop_last(), keep.drop_last()).push(s.last())
    } else {
        kept(s.drop_last(), keep.drop_last())
    }
}

/// The entries whose flag is set, in order.
fn select_entries(entries: &Vec<RomEntry>, keep: &Vec<bool>) -> (r: Vec<RomEntry>)
    requires
        entries@.len() == keep@.len(),
    ensures
        r@ == kept(entries@, keep@),
{
    let mut r: Vec<RomEntry> = Vec::new();
    let mut i: usize = 0;
    while i < entries.len()
        invariant
            entries@.len() == keep@.len(),
            i <= entries@.len(),
            r@ == kept(entries@.take(i as int), keep@.take(i as int)),
        decreases entries@.len() - i,
    {
        assert(entries@.take(i + 1).drop_last() =~= entries@.take(i as int));
        assert(keep@.take(i + 1).drop_last() =~= keep@.take(i as int));
        if keep[i] {
            r.push(entries[i].duplicate());
        }
        i = i + 1;
    }
    assert(entries@.take(entries@.len() as int) =~= entries@);
    assert(keep@.take(keep@.len() as int) =~= keep@);
    r
}

/// The list of playable ROMs: of the machines in `entries`, those whose flag
/// in `present` is set (their ROM archive exists), sorted by ROM name; the ROM
/// names come first, and the descriptions at the same positions.
pub fn finish_rom_list(entries: Vec<RomEntry>, present: &Vec<bool>) -> (r: (
    Vec<String>,
    Vec<String>,
))
    requires
        entries@.len() == present@.len(),
    ensures
        r.0@.len() == r.1@.len(),
        forall|i: int, j: int|
            0 <= i < j < r.0@.len() ==> bytes_le(
                text_bytes((#[trigger] r.0@[i])@),
                text_bytes((#[trigger] r.0@[j])@),
            ),
        exists|s: Seq<RomEntry>|
            {
                &&& is_stable_sort_of(s, kept(entries@, present@))
                &&& s.len() == r.0@.len()
                &&& forall|i: int|
                    0 <= i < s.len() ==> (#[trigger] r.0@[i])@ == s[i].rom@ && r.1@[i]@
                        == s[i].description@
            },
{
    let mut chosen = select_entries(&entries, present);
    let ghost before = chosen@;
    sort_by_key(&mut chosen);
    let mut roms: Vec<String> = Vec::new();
    let mut descriptions: Vec<String> = Vec::new();
    let mut i: usize = 0;
    while i < chosen.len()
        invariant
            i <= chosen@.len(),
            roms@.len() == i,
            descriptions@.len() == i,
            forall|j: int|
                0 <= j < i ==> (#[trigger] roms@[j])@ == chosen@[j].rom@ && descriptions@[j]@
                    == chosen@[j].description@,
        decreases chosen@.len() - i,
    {
        let entry = &chosen[i];
        let rom = entry.rom.clone();
        let description = entry.description.clone();
        assert(rom@ == chosen@[i as int].rom@);
        roms.push(rom);
        descriptions.push(description);
        i = i + 1;
    }
    proof {
        assert(is_stable_sort_of(chosen@, kept(entries@, present@)));
        lemma_rom_entries_sorted_by_name(chosen@, kept(entries@, present@));
        assert forall|i: int, j: int| 0 <= i < j < roms@.len() implies bytes_le(
            text_bytes((#[trigger] roms@[i])@),
            text_bytes((#[trigger] roms@[j])@),
        ) by {
            assert(roms@[i]@ == chosen@[i].rom@);
            assert(roms@[j]@ == chosen@[j].rom@);
        }
    }
    (roms, descriptions)
}

/// The arguments of `mame -verifyroms`: the ROMs directory after `-rp`, then
/// `-verifyroms` and the ROM names.
pub fn verifyroms_arguments(config: &Config, roms: &Vec<String>) -> (args: Vec<String>)
    ensures
        args@.len() == roms@.len() + 3,
        args@[0]@ == "-rp"@,
        args@[1]@ == config.roms_path@,
        args@[2]@ == "-verifyroms"@,
        forall|i: int| 0 <= i < roms@.len() ==> (#[trigger] args@[i + 3])@ == roms@[i]@,
{
    let mut args: Vec<String> = Vec::new();
    args.push(String::from_str("-rp"));
    args.push(config.roms_path.clone());
    args.push(String::from_str("-verifyroms"));
    let mut i: usize = 0;
    while i < roms.len()
        invariant
            i <= roms@.len(),
            args@.len() == i + 3,
            args@[0]@ == "-rp"@,
            args@[1]@ == config.roms_path@,
            args@[2]@ == "-verifyroms"@,
            forall|j: int| 0 <= j < i ==> (#[trigger] args@[j + 3])@ == roms@[j]@,
        decreases roms@.len() - i,
    {
        args.push(roms[i].clone());
        i = i + 1;
    }
    args
}

/// The verdicts of `mame -verifyroms` on a batch of ROMs. MAME names on its
/// standard error each ROM that is not good, so a ROM is good when its name
/// does not occur there. When MAME could not be run (`stderr` is `None`),
/// no ROM is good.
pub fn roms_verification(stderr: Option<&str>, roms: &Vec<String>) -> (good: Vec<bool>)
    ensures
        good@.len() == roms@.len(),
        forall|i: int|
            0 <= i < roms@.len() ==> #[trigger] good@[i] == match stderr {
                Some(e) => !bytes_contain(text_bytes(e@), text_bytes(roms@[i]@)),
                None => false,
            },
{
    let mut good: Vec<bool> = Vec::new();
    let mut i: usize = 0;
    while i < roms.len()
        invariant
            i <= roms@.len(),
            good@.len() == i,
            forall|j: int|
                0 <= j < i ==> #[trigger] good@[j] == match stderr {
                    Some(e) => !bytes_contain(text_bytes(e@), text_bytes(roms@[j]@)),
                    None => false,
                },
        decreases roms@.len() - i,
    {
        let verdict = match stderr {
            Some(e) => !bytes_contain_exec(e.as_bytes(), roms[i].as_str().as_bytes()),
            None => false,
        };
        good.push(verdict);
        i = i + 1;
    }
    good
}

/// The names of the snapshots of ROMs: `<rom>.png` for each.
pub open spec fn snap_names(roms: Seq<String>) -> Seq<Seq<char>> {
    roms.map_values(|r: String| r@ + ".png"@)
}

/// The snapshot names of two batches together are those of the first batch
/// followed by those of the second.
pub proof fn lemma_snap_names_concat(a: Seq<String>, b: Seq<String>)
    ensures
        snap_names(a + b) == snap_names(a) + snap_names(b),
{
    assert(snap_names(a + b) =~= snap_names(a) + snap_names(b));
}

/// The names of the snapshots of a batch of ROMs in the snapshot archive.
pub fn snap_entry_names(roms: &Vec<String>) -> (names: Vec<String>)
    ensures
        names@.len() == roms@.len(),
        forall|i: int| 0 <= i < roms@.len() ==> (#[trigger] names@[i])@ == roms@[i]@ + ".png"@,
        names@.map_values(|n: String| n@) == snap_names(roms@),
{
    let mut names: Vec<String> = Vec::new();
    let mut i: usize = 0;
    while i < roms.len()
        invariant
            i <= roms@.len(),
            names@.len() == i,
            forall|j: int| 0 <= j < i ==> (#[trigger] names@[j])@ == roms@[j]@ + ".png"@,
        decreases roms@.len() - i,
    {
        names.push(roms[i].clone().concat(".png"));
        i = i + 1;
    }
    assert(names@.map_values(|n: String| n@) =~= snap_names(roms@));
    names
}

} // verus!

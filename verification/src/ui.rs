//! The decisions of the user interface: which games the filter shows, what the
//! context menu offers, how the ROM list is verified in batches, which games a
//! refresh keeps, and the language to use.
use vstd::prelude::*;
use vstd::string::StrSliceExecFns;
use crate::game::{Game, GameView};
use crate::sorting::SortKey;
use crate::text::{bytes_contain, bytes_contain_exec, occurs_at, text_bytes};

verus! {

/// The number of ROMs verified together.
pub const BATCH_SIZE: usize = 100;

/// `s` in lowercase, as `str::to_lowercase` maps it.
pub uninterp spec fn lowercase(s: Seq<char>) -> Seq<char>;

/// Calls `str::to_lowercase`. The contract claims that the result is the
/// lowercase mapping of `s`, a function of `s` alone, and that it is empty
/// when `s` is (std maps each character to its lowercase).
#[verifier::external_body]
fn to_lowercase(s: &str) -> (r: String)
    ensures
        r@ == lowercase(s@),
        s@.len() == 0 ==> r@.len() == 0,
{
    s.to_lowercase()
}

/// Whether the filter `filter` shows a game: the lowercase description holds
/// the lowercase filter.
pub open spec fn shown_by(filter: Seq<char>) -> spec_fn(Game) -> bool {
    |g: Game| bytes_contain(text_bytes(lowercase(g@.description)), text_bytes(lowercase(filter)))
}

/// A text contains itself.
proof fn lemma_bytes_contain_self(t: Seq<u8>)
    ensures
        bytes_contain(t, t),
{
    assert(t.subrange(0, t.len() as int) =~= t);
    assert(occurs_at(t, t, 0));
}

/// The filter shows exactly the games whose whole lowercase description holds
/// the lowercase filter at some offset, in the order of the list: every game
/// shown holds it, every game of the list that holds it is shown, no other
/// game is, and a filter equal to a game's description shows that game.
pub proof fn lemma_filter_shows_matching_games(items: Seq<Game>, filter: Seq<char>, shown: Seq<Game>)
    requires
        shown == items.filter(shown_by(filter)),
    ensures
        forall|i: int|
            0 <= i < shown.len() ==> bytes_contain(
                text_bytes(lowercase((#[trigger] shown[i])@.description)),
                text_bytes(lowercase(filter)),
            ),
        forall|i: int|
            0 <= i < items.len() ==> (shown.contains(#[trigger] items[i]) <==> bytes_contain(
                text_bytes(lowercase(items[i]@.description)),
                text_bytes(lowercase(filter)),
            )),
        forall|i: int|
            0 <= i < items.len() && (#[trigger] items[i])@.description == filter ==> shown.contains(
                items[i],
            ),
        shown.len() <= items.len(),
{
    broadcast use vstd::seq_lib::group_filter_ensures;

    let pred = shown_by(filter);
    assert forall|i: int| 0 <= i < shown.len() implies bytes_contain(
        text_bytes(lowercase((#[trigger] shown[i])@.description)),
        text_bytes(lowercase(filter)),
    ) by {
        assert(pred(shown[i]));
    }
    assert forall|i: int| 0 <= i < items.len() implies (shown.contains(#[trigger] items[i])
        <==> bytes_contain(
        text_bytes(lowercase(items[i]@.description)),
        text_bytes(lowercase(filter)),
    )) by {
        if pred(items[i]) {
            items.lemma_filter_contains(pred, i);
        }
        if shown.contains(items[i]) {
            let k = choose|k: int| 0 <= k < shown.len() && shown[k] == items[i];
            assert(pred(shown[k]));
        }
    }
    assert forall|i: int|
        0 <= i < items.len() && (#[trigger] items[i])@.description == filter implies shown.contains(
        items[i],
    ) by {
        lemma_bytes_contain_self(text_bytes(lowercase(filter)));
        items.lemma_filter_contains(pred, i);
    }
}

/// The games that the filter shows, in order; an empty filter shows them all.
pub fn filter_games(items: &Vec<Game>, filter: &str) -> (r: Vec<Game>)
    ensures
        r@ == items@.filter(shown_by(filter@)),
        filter@.len() == 0 ==> r@ == items@,
        forall|i: int|
            0 <= i < r@.len() ==> bytes_contain(
                text_bytes(lowercase((#[trigger] r@[i])@.description)),
                text_bytes(lowercase(filter@)),
            ),
        forall|i: int|
            0 <= i < items@.len() ==> (r@.contains(#[trigger] items@[i]) <==> bytes_contain(
                text_bytes(lowercase(items@[i]@.description)),
                text_bytes(lowercase(filter@)),
            )),
{
    let wanted = to_lowercase(filter);
    let mut r: Vec<Game> = Vec::new();
    let mut i: usize = 0;
    proof {
        reveal(Seq::filter);
        assert(items@.take(0) =~= Seq::<Game>::empty());
    }
    while i < items.len()
        invariant
            i <= items@.len(),
            wanted@ == lowercase(filter@),
            filter@.len() == 0 ==> wanted@.len() == 0,
            r@ == items@.take(i as int).filter(shown_by(filter@)),
            filter@.len() == 0 ==> r@ == items@.take(i as int),
        decreases items@.len() - i,
    {
        let item = &items[i];
        let description = to_lowercase(item.description().as_str());
        let shown = bytes_contain_exec(description.as_str().as_bytes(), wanted.as_str().as_bytes());
        proof {
            assert(items@.take(i + 1) =~= items@.take(i as int).push(*item));
            items@.take(i as int).lemma_filter_push(*item, shown_by(filter@));
            if filter@.len() == 0 {
                let hay = text_bytes(description@);
                let needle = text_bytes(wanted@);
                assert(wanted@ =~= Seq::<char>::empty());
                assert(needle =~= Seq::<u8>::empty());
                assert(hay.subrange(0, 0) =~= needle);
                assert(occurs_at(hay, needle, 0));
            }
        }
        if shown {
            r.push(item.duplicate());
        }
        i = i + 1;
    }
    proof {
        assert(items@.take(items@.len() as int) =~= items@);
        lemma_filter_shows_matching_games(items@, filter@, r@);
    }
    r
}

/// What the context menu of a game list offers for the selected game.
#[derive(Debug, PartialEq, Eq, Clone, Copy)]
pub enum ContextAction {
    AddFavourite,
    RemoveFavourite,
}

/// The action of the context menu: in the favourites list, removing the
/// selected game; in the list of all games, removing it when it is a
/// favourite and adding it otherwise.
pub fn context_menu_action(favourites: &Vec<Game>, selected_rom: &String, is_favourite_list: bool) -> (a:
    ContextAction)
    ensures
        a == (if is_favourite_list || exists|i: int|
            0 <= i < favourites@.len() && (#[trigger] favourites@[i])@.rom == selected_rom@ {
            ContextAction::RemoveFavourite
        } else {
            ContextAction::AddFavourite
        }),
{
    if is_favourite_list {
        return ContextAction::RemoveFavourite;
    }
    match crate::games::position_of_rom(favourites, selected_rom) {
        Some(p) => {
            assert(favourites@[p as int]@.rom == selected_rom@);
            ContextAction::RemoveFavourite
        },
        None => ContextAction::AddFavourite,
    }
}

/// The number of batches of `BATCH_SIZE` ROMs that `total` ROMs make.
pub fn batch_count(total: usize) -> (n: usize)
    ensures
        n == (total + BATCH_SIZE - 1) / (BATCH_SIZE as int),
{
    if total % BATCH_SIZE == 0 {
        total / BATCH_SIZE
    } else {
        total / BATCH_SIZE + 1
    }
}

/// The positions, from `start` up to `end` excluded, of the ROMs of batch
/// `batch_index` among `total` ROMs.
pub fn batch_bounds(batch_index: usize, total: usize) -> (r: (usize, usize))
    requires
        batch_index < (total + BATCH_SIZE - 1) / (BATCH_SIZE as int),
    ensures
        r.0 == batch_index * BATCH_SIZE,
        r.1 == if (batch_index + 1) * BATCH_SIZE <= total {
            (batch_index + 1) * BATCH_SIZE
        } else {
            total as int
        },
        r.0 < r.1 <= total,
{
    assert(batch_index * BATCH_SIZE < total) by (nonlinear_arith)
        requires
            batch_index < (total + BATCH_SIZE - 1) / (BATCH_SIZE as int),
            BATCH_SIZE == 100,
    ;
    let start = batch_index * BATCH_SIZE;
    let end = if total - start >= BATCH_SIZE {
        start + BATCH_SIZE
    } else {
        total
    };
    (start, end)
}

/// The description that stands for a missing one.
pub open spec fn unknown_description() -> Seq<char> {
    "Unknown Description"@
}

/// The games that a refresh of the games list keeps: each ROM whose verdict
/// is good, with the description at its position (`Unknown Description`
/// where there is none) and its snapshot verdict (no snapshot where there is
/// none), in the order of the ROMs.
pub open spec fn working_games(
    roms: Seq<String>,
    descriptions: Seq<String>,
    working_roms: Seq<bool>,
    working_snaps: Seq<bool>,
) -> Seq<GameView>
    decreases roms.len(),
{
    if roms.len() == 0 {
        Seq::empty()
    } else {
        let i = roms.len() - 1;
        let before = working_games(roms.drop_last(), descriptions, working_roms, working_snaps);
        if i < working_roms.len() && working_roms[i] {
            before.push(
                GameView {
                    rom: roms[i]@,
                    description: if i < descriptions.len() {
                        descriptions[i]@
                    } else {
                        unknown_description()
                    },
                    snap: i < working_snaps.len() && working_snaps[i],
                },
            )
        } else {
            before
        }
    }
}

/// When every ROM's verdict is good, a refresh keeps every ROM in order, the
/// game at position `i` holding the ROM name at `i`, the description at `i`
/// when there is one (`Unknown Description` only when there is none), and
/// the snapshot verdict at `i` (no snapshot where there is none).
pub proof fn lemma_working_games_keep_all_good(
    roms: Seq<String>,
    descriptions: Seq<String>,
    working_roms: Seq<bool>,
    working_snaps: Seq<bool>,
)
    requires
        working_roms.len() >= roms.len(),
        forall|i: int| 0 <= i < roms.len() ==> #[trigger] working_roms[i],
    ensures
        ({
            let games = working_games(roms, descriptions, working_roms, working_snaps);
            &&& games.len() == roms.len()
            &&& forall|i: int|
                0 <= i < roms.len() ==> {
                    &&& (#[trigger] games[i]).rom == roms[i]@
                    &&& games[i].description == if i < descriptions.len() {
                        descriptions[i]@
                    } else {
                        "Unknown Description"@
                    }
                    &&& games[i].snap == (i < working_snaps.len() && working_snaps[i])
                }
        }),
    decreases roms.len(),
{
    if roms.len() > 0 {
        let init = roms.drop_last();
        assert forall|i: int| 0 <= i < init.len() implies #[trigger] working_roms[i] by {
            assert(working_roms[i]);
        }
        lemma_working_games_keep_all_good(init, descriptions, working_roms, working_snaps);
        let before = working_games(init, descriptions, working_roms, working_snaps);
        let games = working_games(roms, descriptions, working_roms, working_snaps);
        assert(working_roms[roms.len() - 1]);
        assert forall|i: int| 0 <= i < roms.len() - 1 implies games[i] == before[i] && roms[i]
            == init[i] by {}
    }
}

/// The game a refresh makes of the ROM at position `i`.
pub open spec fn game_at(
    roms: Seq<String>,
    descriptions: Seq<String>,
    working_snaps: Seq<bool>,
    i: int,
) -> GameView {
    GameView {
        rom: roms[i]@,
        description: if i < descriptions.len() {
            descriptions[i]@
        } else {
            "Unknown Description"@
        },
        snap: i < working_snaps.len() && working_snaps[i],
    }
}

/// A refresh keeps, in the order of the ROMs, exactly the ROMs whose verdict
/// is good: the positions `idx` it keeps increase, each has a good verdict,
/// every position with a good verdict is among them, and the game kept from
/// position `i` holds the ROM name at `i`, the description at `i` when there
/// is one (`Unknown Description` only when there is none), and the snapshot
/// verdict at `i`.
pub proof fn lemma_working_games_positions(
    roms: Seq<String>,
    descriptions: Seq<String>,
    working_roms: Seq<bool>,
    working_snaps: Seq<bool>,
) -> (idx: Seq<int>)
    ensures
        ({
            let games = working_games(roms, descriptions, working_roms, working_snaps);
            &&& idx.len() == games.len()
            &&& forall|k: int|
                0 <= k < idx.len() ==> 0 <= #[trigger] idx[k] < roms.len() && idx[k]
                    < working_roms.len() && working_roms[idx[k]]
            &&& forall|k: int, l: int| 0 <= k < l < idx.len() ==> #[trigger] idx[k] < #[trigger] idx[l]
            &&& forall|i: int|
                0 <= i < roms.len() && i < working_roms.len() && #[trigger] working_roms[i]
                    ==> idx.contains(i)
            &&& forall|k: int|
                0 <= k < idx.len() ==> #[trigger] games[k] == game_at(
                    roms,
                    descriptions,
                    working_snaps,
                    idx[k],
                )
        }),
    decreases roms.len(),
{
    if roms.len() == 0 {
        Seq::empty()
    } else {
        let n = roms.len() - 1;
        let init = roms.drop_last();
        let prev = lemma_working_games_positions(init, descriptions, working_roms, working_snaps);
        let before = working_games(init, descriptions, working_roms, working_snaps);
        assert forall|k: int| 0 <= k < prev.len() implies game_at(
            init,
            descriptions,
            working_snaps,
            prev[k],
        ) == game_at(roms, descriptions, working_snaps, prev[k]) by {
            assert(init[prev[k]] == roms[prev[k]]);
        }
        if n < working_roms.len() && working_roms[n] {
            let idx = prev.push(n);
            assert(idx[prev.len() as int] == n);
            assert forall|i: int|
                0 <= i < roms.len() && i < working_roms.len() && #[trigger] working_roms[i]
                    implies idx.contains(i) by {
                if i < n {
                    assert(prev.contains(i));
                    let k = choose|k: int| 0 <= k < prev.len() && prev[k] == i;
                    assert(idx[k] == i);
                } else {
                    assert(idx[prev.len() as int] == i);
                }
            }
            assert forall|k: int| 0 <= k < idx.len() implies 0 <= #[trigger] idx[k] < roms.len()
                && idx[k] < working_roms.len() && working_roms[idx[k]] by {
                if k < prev.len() {
                    assert(idx[k] == prev[k]);
                }
            }
            assert forall|k: int, l: int| 0 <= k < l < idx.len() implies #[trigger] idx[k]
                < #[trigger] idx[l] by {
                assert(idx[k] == prev[k]);
                if l < prev.len() {
                    assert(idx[l] == prev[l]);
                }
            }
            idx
        } else {
            assert forall|i: int|
                0 <= i < roms.len() && i < working_roms.len() && #[trigger] working_roms[i]
                    implies prev.contains(i) by {
                assert(i < n);
            }
            prev
        }
    }
}

/// What each of a list of games holds.
pub open spec fn games_view(games: Seq<Game>) -> Seq<GameView> {
    games.map_values(|g: Game| g@)
}

/// Builds the games that a refresh keeps (see `working_games`).
pub fn collect_working_games(
    roms: &Vec<String>,
    descriptions: &Vec<String>,
    working_roms: &Vec<bool>,
    working_snaps: &Vec<bool>,
) -> (games: Vec<Game>)
    ensures
        games_view(games@) == working_games(roms@, descriptions@, working_roms@, working_snaps@),
{
    let mut games: Vec<Game> = Vec::new();
    let unknown = String::from_str("Unknown Description");
    let mut i: usize = 0;
    while i < roms.len()
        invariant
            i <= roms@.len(),
            unknown@ == unknown_description(),
            games_view(games@) == working_games(
                roms@.take(i as int),
                descriptions@,
                working_roms@,
                working_snaps@,
            ),
        decreases roms@.len() - i,
    {
        assert(roms@.take(i + 1).drop_last() =~= roms@.take(i as int));
        let ghost before = games@;
        if i < working_roms.len() && working_roms[i] {
            let description = if i < descriptions.len() {
                &descriptions[i]
            } else {
                &unknown
            };
            let snap = i < working_snaps.len() && working_snaps[i];
            let game = Game::new(&roms[i], description, snap);
            games.push(game);
            assert(games_view(games@) =~= games_view(before).push(game@));
        }
        i = i + 1;
    }
    assert(roms@.take(roms@.len() as int) =~= roms@);
    games
}

/// The language of a locale such as `en_US.UTF-8`: what comes before the
/// first underscore (the whole text when there is none).
pub open spec fn language_of(locale: Seq<char>) -> Seq<char>
    decreases locale.len(),
{
    if locale.len() == 0 {
        locale
    } else if locale[0] == '_' {
        Seq::empty()
    } else {
        seq![locale[0]] + language_of(locale.drop_first())
    }
}

/// The language code of a locale, for choosing translations.
pub fn lang_code(locale: &str) -> (code: String)
    ensures
        code@ == language_of(locale@),
{
    let n = locale.unicode_len();
    let mut i: usize = 0;
    while i < n && locale.get_char(i) != '_'
        invariant
            n == locale@.len(),
            i <= n,
            forall|j: int| 0 <= j < i ==> locale@[j] != '_',
        decreases n - i,
    {
        i = i + 1;
    }
    proof {
        lemma_language_of_prefix(locale@, i as int);
    }
    String::from_str(locale.substring_char(0, i))
}

proof fn lemma_language_of_prefix(s: Seq<char>, i: int)
    requires
        0 <= i <= s.len(),
        forall|j: int| 0 <= j < i ==> s[j] != '_',
        i == s.len() || s[i] == '_',
    ensures
        language_of(s) == s.subrange(0, i),
    decreases i,
{
    if i == 0 {
        assert(s.subrange(0, 0) =~= Seq::<char>::empty());
    } else {
        let t = s.drop_first();
        assert forall|j: int| 0 <= j < i - 1 implies t[j] != '_' by {
            assert(t[j] == s[j + 1]);
        }
        lemma_language_of_prefix(t, i - 1);
        assert(s.subrange(0, i) =~= seq![s[0]] + t.subrange(0, i - 1));
    }
}

} // verus!

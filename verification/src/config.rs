//! Where the log, the database and the caches are.
use vstd::prelude::*;
use vstd::string::StringExecFns;

use crate::text::{self, texts};

verus! {

/// Where Steam as a Snap keeps the log, below the home directory.
pub const DEFAULT_LOG_RELATIVE: &'static str =
    "snap/steam/common/.local/share/Steam/steamapps/compatdata/2141910/pfx/drive_c/users/steamuser/AppData/LocalLow/Wizards Of The Coast/MTGA/Player.log";

/// Where Steam as a Snap keeps the game's data, below the home directory.
pub const DEFAULT_DATA_RELATIVE: &'static str =
    "snap/steam/common/.local/share/Steam/steamapps/common/MTGA/MTGA_Data/Downloads/Raw";

/// Where Steam keeps the log, below its own directory.
pub const LOG_SUFFIX: &'static str =
    "steamapps/compatdata/2141910/pfx/drive_c/users/steamuser/AppData/LocalLow/Wizards Of The Coast/MTGA/Player.log";

/// Where Steam keeps the game's data, below its own directory.
pub const DATA_SUFFIX: &'static str = "steamapps/common/MTGA/MTGA_Data/Downloads/Raw";

/// Where Lutris keeps the game's data, below the home directory.
pub const LUTRIS_DATA: &'static str =
    "Games/magic-the-gathering-arena/drive_c/Program Files/Wizards of the Coast/MTGA/MTGA_Data/Downloads/Raw";

/// A path below a directory.
pub open spec fn below(dir: Seq<char>, rest: Seq<char>) -> Seq<char> {
    if dir.len() == 0 || dir.last() == '/' {
        dir + rest
    } else {
        dir.push('/') + rest
    }
}

/// A path below a directory.
pub fn join_path(dir: &str, rest: &str) -> (r: String)
    ensures
        r@ == below(dir@, rest@),
{
    let a = text::chars_of(dir);
    let mut r = text::string_of(a.as_slice());
    if a.len() > 0 && a[a.len() - 1] != '/' {
        r.push('/');
    }
    r.append(rest);
    r
}

/// A path below a Steam directory below the home directory.
pub open spec fn below_steam(home: Seq<char>, steam: Seq<char>, suffix: Seq<char>) -> Seq<char> {
    below(home, steam + suffix)
}

fn steam_path(home: &str, steam: &str, suffix: &str) -> (r: String)
    ensures
        r@ == below_steam(home@, steam@, suffix@),
{
    let mut rest = String::new();
    rest.append(steam);
    rest.append(suffix);
    assert(rest@ =~= steam@ + suffix@);
    join_path(home, rest.as_str())
}

/// The other places of the log, in the order in which they are tried.
pub open spec fn log_fallbacks(home: Seq<char>) -> Seq<Seq<char>> {
    seq![
        below_steam(home, ".steam/steam/"@, LOG_SUFFIX@),
        below_steam(home, ".local/share/Steam/"@, LOG_SUFFIX@),
        below_steam(home, ".var/app/com.valvesoftware.Steam/data/Steam/"@, LOG_SUFFIX@),
    ]
}

/// The other places of the game's data, in the order in which they are tried.
pub open spec fn data_fallbacks(home: Seq<char>) -> Seq<Seq<char>> {
    seq![
        below_steam(home, ".steam/steam/"@, DATA_SUFFIX@),
        below_steam(home, ".local/share/Steam/"@, DATA_SUFFIX@),
        below_steam(home, ".var/app/com.valvesoftware.Steam/data/Steam/"@, DATA_SUFFIX@),
        below(home, LUTRIS_DATA@),
    ]
}

/// The other places of the log.
pub fn fallback_log_paths(home: &str) -> (r: Vec<String>)
    ensures
        texts(r@) == log_fallbacks(home@),
{
    let mut r: Vec<String> = Vec::new();
    r.push(steam_path(home, ".steam/steam/", LOG_SUFFIX));
    r.push(steam_path(home, ".local/share/Steam/", LOG_SUFFIX));
    r.push(steam_path(home, ".var/app/com.valvesoftware.Steam/data/Steam/", LOG_SUFFIX));
    assert(texts(r@) =~= log_fallbacks(home@));
    r
}

/// The other places of the game's data.
pub fn fallback_data_paths(home: &str) -> (r: Vec<String>)
    ensures
        texts(r@) == data_fallbacks(home@),
{
    let mut r: Vec<String> = Vec::new();
    r.push(steam_path(home, ".steam/steam/", DATA_SUFFIX));
    r.push(steam_path(home, ".local/share/Steam/", DATA_SUFFIX));
    r.push(steam_path(home, ".var/app/com.valvesoftware.Steam/data/Steam/", DATA_SUFFIX));
    r.push(join_path(home, LUTRIS_DATA));
    assert(texts(r@) =~= data_fallbacks(home@));
    r
}

/// All places of the log, the usual one first.
pub open spec fn log_places(home: Seq<char>) -> Seq<Seq<char>> {
    seq![below(home, DEFAULT_LOG_RELATIVE@)] + log_fallbacks(home)
}

/// All places of the game's data, the usual one first.
pub open spec fn data_places(home: Seq<char>) -> Seq<Seq<char>> {
    seq![below(home, DEFAULT_DATA_RELATIVE@)] + data_fallbacks(home)
}

fn with_first(first: String, rest: Vec<String>) -> (r: Vec<String>)
    ensures
        texts(r@) == seq![first@] + texts(rest@),
{
    let mut r = rest;
    r.insert(0, first);
    assert(texts(r@) =~= seq![first@] + texts(rest@));
    r
}

/// All places of the log, the usual one first.
pub fn log_candidates(home: &str) -> (r: Vec<String>)
    ensures
        texts(r@) == log_places(home@),
{
    with_first(join_path(home, DEFAULT_LOG_RELATIVE), fallback_log_paths(home))
}

/// All places of the game's data, the usual one first.
pub fn data_candidates(home: &str) -> (r: Vec<String>)
    ensures
        texts(r@) == data_places(home@),
{
    with_first(join_path(home, DEFAULT_DATA_RELATIVE), fallback_data_paths(home))
}

/// The first place that exists; the usual one where none does.
pub open spec fn first_existing(places: Seq<Seq<char>>, exists: Seq<bool>) -> Seq<char> {
    match first_set(exists) {
        Some(i) => places[i],
        None => places[0],
    }
}

/// The position of the first flag that is set.
pub open spec fn first_set(flags: Seq<bool>) -> Option<int>
    decreases flags.len(),
{
    if flags.len() == 0 {
        None
    } else {
        match first_set(flags.drop_last()) {
            Some(i) => Some(i),
            None => if flags.last() {
                Some(flags.len() - 1)
            } else {
                None
            },
        }
    }
}

fn pick(override_path: Option<String>, places: &Vec<String>, exists: &Vec<bool>) -> (r: String)
    requires
        places@.len() > 0,
        exists@.len() == places@.len(),
    ensures
        r@ == (match override_path {
            Some(p) => p@,
            None => first_existing(texts(places@), exists@),
        }),
{
    if let Some(p) = override_path {
        return p;
    }
    let mut i: usize = 0;
    assert(exists@.take(0) =~= Seq::<bool>::empty());
    while i < places.len()
        invariant
            i <= places@.len(),
            places@.len() > 0,
            exists@.len() == places@.len(),
            override_path is None,
            first_set(exists@.take(i as int)) is None,
        decreases places@.len() - i,
    {
        assert(exists@.take(i + 1).drop_last() =~= exists@.take(i as int));
        if exists[i] {
            proof {
                lemma_first_set(exists@, i + 1);
            }
            return places[i].clone();
        }
        i += 1;
    }
    assert(exists@.take(i as int) =~= exists@);
    places[0].clone()
}

proof fn lemma_first_set(flags: Seq<bool>, n: int)
    requires
        0 <= n <= flags.len(),
        first_set(flags.take(n)) is Some,
    ensures
        first_set(flags) == first_set(flags.take(n)),
    decreases flags.len() - n,
{
    if n < flags.len() {
        assert(flags.take(n + 1).drop_last() =~= flags.take(n));
        lemma_first_set(flags, n + 1);
    } else {
        assert(flags.take(n) =~= flags);
    }
}

/// Where everything is.
#[derive(Debug, Clone)]
pub struct Config {
    pub log_path: String,
    pub db_path: String,
    pub card_cache_path: String,
    pub assets_dir: String,
    pub mtga_data_dir: String,
    pub bind_override: Option<String>,
}

/// The directories that the system gives, and which of the places exist.
pub struct Surroundings {
    pub home: String,
    pub data_dir: String,
    pub cache_dir: String,
    /// For each place of the log whether it exists.
    pub log_exists: Vec<bool>,
    /// For each place of the game's data whether it exists.
    pub data_exists: Vec<bool>,
}

impl Config {
    /// Finds everything: what is given by hand goes first, then the first
    /// place that exists, then the usual place.
    pub fn resolve(
        log_override: Option<String>,
        db_override: Option<String>,
        data_dir_override: Option<String>,
        around: &Surroundings,
    ) -> (r: Config)
        requires
            around.log_exists@.len() == log_places(around.home@).len(),
            around.data_exists@.len() == data_places(around.home@).len(),
        ensures
            r.log_path@ == (match log_override {
                Some(p) => p@,
                None => first_existing(log_places(around.home@), around.log_exists@),
            }),
            r.db_path@ == (match db_override {
                Some(p) => p@,
                None => below(around.data_dir@, "tracker.sqlite"@),
            }),
            r.card_cache_path@ == below(around.cache_dir@, "scryfall-arena-v2.json"@),
            r.assets_dir@ == below(around.cache_dir@, "assets"@),
            r.mtga_data_dir@ == (match data_dir_override {
                Some(p) => p@,
                None => first_existing(data_places(around.home@), around.data_exists@),
            }),
            r.bind_override is None,
    {
        let log_places_list = log_candidates(around.home.as_str());
        let data_places_list = data_candidates(around.home.as_str());
        proof {
            assert(log_places_list@.len() == texts(log_places_list@).len());
            assert(data_places_list@.len() == texts(data_places_list@).len());
        }
        let db_path = match db_override {
            Some(p) => p,
            None => join_path(around.data_dir.as_str(), "tracker.sqlite"),
        };
        Config {
            log_path: pick(log_override, &log_places_list, &around.log_exists),
            db_path,
            card_cache_path: join_path(around.cache_dir.as_str(), "scryfall-arena-v2.json"),
            assets_dir: join_path(around.cache_dir.as_str(), "assets"),
            mtga_data_dir: pick(data_dir_override, &data_places_list, &around.data_exists),
            bind_override: None,
        }
    }
}

/// The place that is chosen is the first that exists.
pub proof fn law_first_place_wins(places: Seq<Seq<char>>, exists: Seq<bool>, i: int)
    requires
        0 <= i < exists.len(),
        exists.len() == places.len(),
        exists[i],
        forall|k: int| 0 <= k < i ==> !#[trigger] exists[k],
    ensures
        first_existing(places, exists) == places[i],
{
    lemma_none_before(exists, i);
    assert(exists.take(i + 1).drop_last() =~= exists.take(i));
    lemma_first_set(exists, i + 1);
}

proof fn lemma_none_before(flags: Seq<bool>, n: int)
    requires
        0 <= n <= flags.len(),
        forall|k: int| 0 <= k < n ==> !#[trigger] flags[k],
    ensures
        first_set(flags.take(n)) is None,
    decreases n,
{
    if n > 0 {
        lemma_none_before(flags, n - 1);
        assert(flags.take(n).drop_last() =~= flags.take(n - 1));
        assert(!flags[n - 1]);
    }
}

/// Where no place exists the usual one is taken.
pub proof fn law_usual_place(places: Seq<Seq<char>>, exists: Seq<bool>)
    requires
        forall|k: int| 0 <= k < exists.len() ==> !#[trigger] exists[k],
    ensures
        first_existing(places, exists) == places[0],
{
    lemma_none_set(exists);
}

proof fn lemma_none_set(flags: Seq<bool>)
    requires
        forall|k: int| 0 <= k < flags.len() ==> !#[trigger] flags[k],
    ensures
        first_set(flags) is None,
    decreases flags.len(),
{
    if flags.len() > 0 {
        let rest = flags.drop_last();
        assert forall|k: int| 0 <= k < rest.len() implies !#[trigger] rest[k] by {
            assert(rest[k] == flags[k]);
        }
        lemma_none_set(rest);
        assert(!flags[flags.len() - 1]);
    }
}

/// Between a directory and what lies below it stands one slash, whether the
/// directory was written with it or without.
pub proof fn law_one_slash(dir: Seq<char>, rest: Seq<char>)
    requires
        dir.len() > 0,
        dir.last() != '/',
    ensures
        below(dir, rest) == dir + seq!['/'] + rest,
        below(dir + seq!['/'], rest) == dir + seq!['/'] + rest,
{
    assert(dir.push('/') =~= dir + seq!['/']);
}

/// Where the log is looked for: as Steam is kept as a Snap, in the user's
/// directory, below the local data, and as a Flatpak, in this order.
pub proof fn law_log_places(home: Seq<char>)
    requires
        home.len() > 0,
        home.last() != '/',
    ensures
        ({
            let places = log_places(home);
            let at = home + seq!['/'];
            &&& places.len() == 4
            &&& places[0] == at + DEFAULT_LOG_RELATIVE@
            &&& places[1] == at + (".steam/steam/"@ + LOG_SUFFIX@)
            &&& places[2] == at + (".local/share/Steam/"@ + LOG_SUFFIX@)
            &&& places[3] == at + (".var/app/com.valvesoftware.Steam/data/Steam/"@ + LOG_SUFFIX@)
        }),
{
    assert(home.push('/') =~= home + seq!['/']);
}

/// Where the game's data is looked for: in the same places, and last where Lutris
/// keeps it.
pub proof fn law_data_places(home: Seq<char>)
    requires
        home.len() > 0,
        home.last() != '/',
    ensures
        ({
            let places = data_places(home);
            let at = home + seq!['/'];
            &&& places.len() == 5
            &&& places[0] == at + DEFAULT_DATA_RELATIVE@
            &&& places[1] == at + (".steam/steam/"@ + DATA_SUFFIX@)
            &&& places[2] == at + (".local/share/Steam/"@ + DATA_SUFFIX@)
            &&& places[3] == at + (".var/app/com.valvesoftware.Steam/data/Steam/"@ + DATA_SUFFIX@)
            &&& places[4] == at + LUTRIS_DATA@
        }),
{
    assert(home.push('/') =~= home + seq!['/']);
}

} // verus!

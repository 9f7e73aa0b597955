//! Names of decks and other texts of the game.
//!
//! The game stores them as keys such as `?=?Loc/Decks/Precon/Precon_EPPFDN_RG`;
//! the English text stands in a database of the game's installation under the
//! key without `?=?Loc/`.
use vstd::hash_map::StringHashMap;
use vstd::prelude::*;

use crate::text::{self, begins, ends, without_prefix};

verus! {

/// What a key begins with where a text stands for it.
pub const KEY_SENTINEL: &'static str = "?=?Loc/";

/// The texts by key.
pub struct LocDb {
    map: StringHashMap<String>,
}

impl View for LocDb {
    type V = Map<Seq<char>, Seq<char>>;

    closed spec fn view(&self) -> Map<Seq<char>, Seq<char>> {
        Map::new(|k: Seq<char>| self.map@.contains_key(k), |k: Seq<char>| self.map@[k]@)
    }
}

/// What a list of keys and texts gives: of several texts for one key the last.
pub open spec fn last_texts(rows: Seq<(String, String)>) -> Map<Seq<char>, Seq<char>>
    decreases rows.len(),
{
    if rows.len() == 0 {
        Map::empty()
    } else {
        last_texts(rows.drop_last()).insert(rows.last().0@, rows.last().1@)
    }
}

/// The text for a key, where it has the sentinel in front and is known; any
/// other text stays as it is.
pub open spec fn translated(db: Map<Seq<char>, Seq<char>>, raw: Seq<char>) -> Seq<char> {
    match without_prefix(raw, KEY_SENTINEL@) {
        Some(key) => if db.contains_key(key) {
            db[key]
        } else {
            raw
        },
        None => raw,
    }
}

impl LocDb {
    /// No text at all.
    pub fn empty() -> (db: LocDb)
        ensures
            db@ == Map::<Seq<char>, Seq<char>>::empty(),
    {
        let db = LocDb { map: StringHashMap::new() };
        assert(db@ =~= Map::<Seq<char>, Seq<char>>::empty());
        db
    }

    /// The texts of a list of keys and texts.
    pub fn from_rows(rows: Vec<(String, String)>) -> (db: LocDb)
        ensures
            db@ == last_texts(rows@),
    {
        let ghost all = rows@;
        let mut db = LocDb::empty();
        assert(all.take(0) =~= Seq::<(String, String)>::empty());
        for row in it: rows
            invariant
                it.seq() == all,
                db@ == last_texts(all.take(it.index() as int)),
        {
            let ghost was = db@;
            proof {
                let n = it.index() as int;
                assert(all.take(n + 1).drop_last() =~= all.take(n));
                assert(all.take(n + 1).last() == row);
            }
            let (key, value) = row;
            db.map.insert(key, value);
            assert(db@ =~= was.insert(key@, value@));
        }
        assert(all.take(all.len() as int) =~= all);
        db
    }

    /// The text for a key; a text that is no key, or not known, stays.
    pub fn translate<'a>(&'a self, raw: &'a str) -> (r: &'a str)
        ensures
            r@ == translated(self@, raw@),
    {
        if let Some(key) = text::strip(raw, KEY_SENTINEL) {
            if let Some(v) = self.map.get(key.as_str()) {
                return v.as_str();
            }
        }
        raw
    }
}

/// Names that a player typed pass unchanged.
pub proof fn law_plain_names_pass(db: Map<Seq<char>, Seq<char>>, raw: Seq<char>)
    requires
        !begins(raw, KEY_SENTINEL@),
    ensures
        translated(db, raw) == raw,
{
}

/// The file name is that of a database of texts.
pub open spec fn is_text_file(name: Seq<char>) -> bool {
    begins(name, "Raw_ClientLocalization_"@) && ends(name, ".mtga"@)
}

/// A file: its name and when it was changed, in seconds and nanoseconds since
/// 1970.
#[derive(Debug)]
pub struct FileStamp {
    pub name: String,
    pub secs: u64,
    pub nanos: u32,
}

/// The first file was changed before the second.
pub open spec fn older(a: FileStamp, b: FileStamp) -> bool {
    a.secs < b.secs || (a.secs == b.secs && a.nanos < b.nanos)
}

/// The position of the database of texts that was changed last, of several at
/// once the first.
pub open spec fn newest(files: Seq<FileStamp>) -> Option<int>
    decreases files.len(),
{
    if files.len() == 0 {
        None
    } else {
        let before = newest(files.drop_last());
        if !is_text_file(files.last().name@) {
            before
        } else {
            match before {
                Some(i) if !older(files[i], files.last()) => Some(i),
                _ => Some(files.len() - 1),
            }
        }
    }
}

/// The position of the database of texts that was changed last.
pub fn locate_file(files: &Vec<FileStamp>) -> (r: Option<usize>)
    ensures
        match r {
            Some(i) => newest(files@) == Some(i as int) && i < files@.len(),
            None => newest(files@) is None,
        },
{
    let mut r: Option<usize> = None;
    let mut i: usize = 0;
    assert(files@.take(0) =~= Seq::<FileStamp>::empty());
    while i < files.len()
        invariant
            i <= files@.len(),
            match r {
                Some(k) => newest(files@.take(i as int)) == Some(k as int) && k < i,
                None => newest(files@.take(i as int)) is None,
            },
        decreases files@.len() - i,
    {
        assert(files@.take(i + 1).drop_last() =~= files@.take(i as int));
        let f = &files[i];
        if text::has_prefix(f.name.as_str(), "Raw_ClientLocalization_") && text::has_suffix(
            f.name.as_str(),
            ".mtga",
        ) {
            match r {
                Some(k) => {
                    let best = &files[k];
                    if best.secs < f.secs || (best.secs == f.secs && best.nanos < f.nanos) {
                        r = Some(i);
                    }
                },
                None => {
                    r = Some(i);
                },
            }
        }
        i += 1;
    }
    assert(files@.take(i as int) =~= files@);
    r
}

/// The file that is chosen is a database of texts, and none was changed later.
pub proof fn law_newest(files: Seq<FileStamp>)
    ensures
        match newest(files) {
            Some(i) => {
                &&& 0 <= i < files.len()
                &&& is_text_file(files[i].name@)
                &&& forall|k: int|
                    0 <= k < files.len() && is_text_file((#[trigger] files[k]).name@) ==> !older(
                        files[i],
                        files[k],
                    )
            },
            None => forall|k: int|
                0 <= k < files.len() ==> !is_text_file((#[trigger] files[k]).name@),
        },
    decreases files.len(),
{
    if files.len() > 0 {
        let rest = files.drop_last();
        law_newest(rest);
        assert forall|k: int| 0 <= k < rest.len() implies rest[k] == #[trigger] files[k] by {}
        let last = files.len() - 1;
        match newest(files) {
            Some(i) => {
                assert forall|k: int|
                    0 <= k < files.len() && is_text_file((#[trigger] files[k]).name@) implies !older(
                    files[i],
                    files[k],
                ) by {
                    if k < last {
                        assert(rest[k] == files[k]);
                    }
                }
            },
            None => {
                assert forall|k: int| 0 <= k < files.len() implies !is_text_file(
                    (#[trigger] files[k]).name@,
                ) by {
                    if k < last {
                        assert(rest[k] == files[k]);
                    }
                }
            },
        }
    }
}

/// A key is replaced by its text where there is one, and stays with what marks
/// it as a key where there is none.
pub proof fn law_keys_translated(db: Map<Seq<char>, Seq<char>>, key: Seq<char>)
    ensures
        ({
            let raw = seq!['?', '=', '?', 'L', 'o', 'c', '/'] + key;
            &&& db.contains_key(key) ==> translated(db, raw) == db[key]
            &&& !db.contains_key(key) ==> translated(db, raw) == raw
        }),
{
    reveal_strlit("?=?Loc/");
    let p = KEY_SENTINEL@;
    let raw = seq!['?', '=', '?', 'L', 'o', 'c', '/'] + key;
    assert(p =~= seq!['?', '=', '?', 'L', 'o', 'c', '/']);
    assert(raw.take(p.len() as int) =~= p);
    assert(raw.skip(p.len() as int) =~= key);
}

/// Of several texts for one key the last counts, and a key without a row has no
/// text.
pub proof fn law_last_text_counts(rows: Seq<(String, String)>, key: Seq<char>)
    ensures
        last_texts(rows).contains_key(key) <==> exists|i: int|
            0 <= i < rows.len() && (#[trigger] rows[i]).0@ == key,
        forall|i: int|
            0 <= i < rows.len() && (#[trigger] rows[i]).0@ == key && (forall|j: int|
                i < j < rows.len() ==> (#[trigger] rows[j]).0@ != key) ==> last_texts(rows)[key]
                == rows[i].1@,
    decreases rows.len(),
{
    if rows.len() > 0 {
        let rest = rows.drop_last();
        law_last_text_counts(rest, key);
        assert forall|i: int| 0 <= i < rest.len() implies rest[i] == rows[i] by {}
        if rows.last().0@ == key {
            assert(rows[rows.len() - 1].0@ == key);
        } else if last_texts(rest).contains_key(key) {
            let i = choose|i: int| 0 <= i < rest.len() && (#[trigger] rest[i]).0@ == key;
            assert(rows[i].0@ == key);
        }
        assert forall|i: int|
            0 <= i < rows.len() && (#[trigger] rows[i]).0@ == key && (forall|j: int|
                i < j < rows.len() ==> (#[trigger] rows[j]).0@ != key) implies last_texts(rows)[key]
            == rows[i].1@ by {
            if i < rest.len() {
                assert(rows[rows.len() - 1].0@ != key);
                assert(rest[i].0@ == key);
                assert forall|j: int| i < j < rest.len() implies (#[trigger] rest[j]).0@ != key by {
                    assert(rows[j].0@ != key);
                }
            }
        }
    }
}

/// The file was changed later: by its seconds, and then by what follows them.
pub open spec fn later(a: FileStamp, b: FileStamp) -> bool {
    a.secs > b.secs || (a.secs == b.secs && a.nanos > b.nanos)
}

/// The name is that of a database of texts.
pub open spec fn names_texts(name: Seq<char>) -> bool {
    &&& name.len() >= 23 && name.take(23) == "Raw_ClientLocalization_"@
    &&& name.len() >= 5 && name.skip(name.len() - 5) == ".mtga"@
}

/// Of the databases of texts the one that was changed last is chosen, and of
/// several the first; other files do not count.
pub proof fn law_newest_first(files: Seq<FileStamp>)
    ensures
        match newest(files) {
            Some(i) => {
                &&& 0 <= i < files.len()
                &&& names_texts(files[i].name@)
                &&& forall|k: int|
                    0 <= k < files.len() && names_texts((#[trigger] files[k]).name@) ==> !later(
                        files[k],
                        files[i],
                    )
                &&& forall|k: int|
                    0 <= k < i && names_texts((#[trigger] files[k]).name@) ==> later(
                        files[i],
                        files[k],
                    )
            },
            None => forall|k: int|
                0 <= k < files.len() ==> !names_texts((#[trigger] files[k]).name@),
        },
    decreases files.len(),
{
    reveal_strlit("Raw_ClientLocalization_");
    reveal_strlit(".mtga");
    assert("Raw_ClientLocalization_"@.len() == 23);
    assert(".mtga"@.len() == 5);
    if files.len() > 0 {
        let rest = files.drop_last();
        law_newest_first(rest);
        assert forall|k: int| 0 <= k < rest.len() implies rest[k] == #[trigger] files[k] by {}
        let n = files.len() - 1;
        if let Some(i) = newest(files) {
            if i == n {
                if let Some(p) = newest(rest) {
                    assert(later(files[n], files[p]));
                    assert forall|k: int|
                        0 <= k < n && names_texts((#[trigger] files[k]).name@) implies later(
                        files[n],
                        files[k],
                    ) by {
                        assert(!later(rest[k], rest[p]));
                    }
                } else {
                    assert forall|k: int|
                        0 <= k < n && names_texts((#[trigger] files[k]).name@) implies later(
                        files[n],
                        files[k],
                    ) by {
                        assert(!names_texts(rest[k].name@));
                    }
                }
            }
        }
    }
}

} // verus!

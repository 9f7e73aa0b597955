//! Images: served from the local cache where they are there, and else from
//! where they come from.
use vstd::prelude::*;
use vstd::string::StringExecFns;

use crate::cards::{image_parts, local_url};
use crate::text::{
    self,
    before,
    begins,
    lemma_before,
    lemma_before_is_first,
    split,
    without_prefix,
};

verus! {

/// The sizes in which card images come.
pub open spec fn is_size(s: Seq<char>) -> bool {
    s == "small"@ || s == "normal"@ || s == "large"@ || s == "png"@
}

/// The name of a file up to its first point.
pub open spec fn stem(file: Seq<char>) -> Seq<char> {
    file.take(before(file, '.'))
}

/// A text of one character.
pub open spec fn single(c: char) -> Seq<char> {
    seq![c]
}

/// The name has two characters at its beginning that can name directories:
/// both are ASCII.
pub open spec fn has_directories(name: Seq<char>) -> bool {
    name.len() >= 2 && (name[0] as u32) < 0x80 && (name[1] as u32) < 0x80
}

/// The address that a path of the cache stands for: a symbol, or an image of a
/// card under the first two characters of its name.
pub open spec fn upstream_of(path: Seq<char>) -> Option<Seq<char>> {
    match without_prefix(path, "symbols/"@) {
        Some(rest) => Some("https://svgs.scryfall.io/card-symbols/"@ + rest),
        None => match without_prefix(path, "cards/"@) {
            Some(rest) => {
                let n = before(rest, '/');
                let size = rest.take(n);
                let file = rest.skip(n + 1);
                if n < rest.len() && is_size(size) && has_directories(stem(file)) {
                    Some(
                        "https://cards.scryfall.io/"@ + size + "/front/"@ + single(file[0]) + "/"@
                            + single(file[1]) + "/"@ + file,
                    )
                } else {
                    None
                }
            },
            None => None,
        },
    }
}

/// The name of the file that a path for a card image asks for.
pub open spec fn image_file(path: Seq<char>) -> Option<Seq<char>> {
    if begins(path, "symbols/"@) {
        None
    } else {
        match without_prefix(path, "cards/"@) {
            Some(rest) => {
                let n = before(rest, '/');
                if n < rest.len() && is_size(rest.take(n)) {
                    Some(rest.skip(n + 1))
                } else {
                    None
                }
            },
            None => None,
        }
    }
}

fn is_known_size(s: &Vec<char>) -> (r: bool)
    ensures
        r == is_size(s@),
{
    text::same_chars(s, &text::chars_of("small")) || text::same_chars(s, &text::chars_of("normal"))
        || text::same_chars(s, &text::chars_of("large")) || text::same_chars(
        s,
        &text::chars_of("png"),
    )
}

/// The size and the file that a path for a card image asks for.
fn image_request(path: &str) -> (r: Option<(Vec<char>, Vec<char>)>)
    ensures
        match r {
            Some((size, file)) => {
                &&& image_file(path@) == Some(file@)
                &&& without_prefix(path@, "cards/"@) is Some
                &&& size@ == without_prefix(path@, "cards/"@).unwrap().take(
                    before(without_prefix(path@, "cards/"@).unwrap(), '/'),
                )
            },
            None => image_file(path@) is None,
        },
{
    if text::has_prefix(path, "symbols/") {
        return None;
    }
    match text::strip(path, "cards/") {
        Some(rest) => {
            let a = text::chars_of(rest.as_str());
            assert(a@.skip(0) =~= a@);
            let n: usize = text::count_before(&a, '/', 0);
            if n == a.len() {
                return None;
            }
            let size = text::copy_range(&a, 0, n);
            assert(size@ =~= rest@.take(n as int));
            if !is_known_size(&size) {
                return None;
            }
            let file = text::copy_range(&a, n + 1, a.len());
            assert(file@ =~= rest@.skip(n + 1));
            Some((size, file))
        },
        None => None,
    }
}

fn stem_of(file: &Vec<char>) -> (r: Vec<char>)
    ensures
        r@ == stem(file@),
        r@.len() <= file@.len(),
        forall|i: int| 0 <= i < r@.len() ==> r@[i] == file@[i],
{
    assert(file@.skip(0) =~= file@);
    let n: usize = text::count_before(file, '.', 0);
    let r = text::copy_range(file, 0, n);
    assert(r@ =~= file@.take(n as int));
    r
}

/// The address that a path of the cache stands for; nothing for other paths.
pub fn upstream_url(path: &str) -> (r: Option<String>)
    ensures
        match r {
            Some(s) => upstream_of(path@) == Some(s@),
            None => upstream_of(path@) is None,
        },
{
    if let Some(rest) = text::strip(path, "symbols/") {
        let mut r = String::new();
        r.append("https://svgs.scryfall.io/card-symbols/");
        r.append(rest.as_str());
        assert(r@ =~= upstream_of(path@).unwrap());
        return Some(r);
    }
    let (size, file) = match image_request(path) {
        Some(p) => p,
        None => {
            return None;
        },
    };
    let s = stem_of(&file);
    if s.len() < 2 || (s[0] as u32) >= 0x80 || (s[1] as u32) >= 0x80 {
        return None;
    }
    let mut r = String::new();
    r.append("https://cards.scryfall.io/");
    r.append(text::string_of(size.as_slice()).as_str());
    r.append("/front/");
    r.push(file[0]);
    r.append("/");
    r.push(file[1]);
    r.append("/");
    r.append(text::string_of(file.as_slice()).as_str());
    assert(r@ =~= upstream_of(path@).unwrap());
    Some(r)
}

/// The path stays below the directory it is taken from: it is not empty, does
/// not begin at the root, and no segment is empty or leads up.
pub open spec fn stays_below(path: Seq<char>) -> bool {
    &&& path.len() > 0
    &&& path[0] != '/'
    &&& forall|k: int|
        0 <= k < split(path, '/').len() ==> (#[trigger] split(path, '/')[k]).len() > 0 && split(
            path,
            '/',
        )[k] != ".."@
}

/// Whether a path stays below the directory it is taken from.
pub fn safe_path(path: &str) -> (r: bool)
    ensures
        r == stays_below(path@),
{
    let a = text::chars_of(path);
    if a.len() == 0 || a[0] == '/' {
        return false;
    }
    let parts = text::split_at_char(&a, '/');
    let up = text::chars_of("..");
    let ghost all = split(path@, '/');
    let mut i: usize = 0;
    while i < parts.len()
        invariant
            i <= parts@.len(),
            parts@.len() == all.len(),
            all == split(path@, '/'),
            path@.len() > 0 && path@[0] != '/',
            up@ == ".."@,
            forall|k: int| 0 <= k < all.len() ==> (#[trigger] parts@[k])@ == all[k],
            forall|k: int| 0 <= k < i ==> (#[trigger] all[k]).len() > 0 && all[k] != ".."@,
        decreases parts@.len() - i,
    {
        assert(parts@[i as int]@ == all[i as int]);
        if parts[i].len() == 0 || text::same_chars(&parts[i], &up) {
            return false;
        }
        i += 1;
    }
    true
}

/// An image is found again: the local address of a card image, of a size that
/// is kept and in the directories of its name, stands for the address that it
/// was made from.
#[verifier::rlimit(60)]
pub proof fn law_images_found_again(url: Seq<char>, path: Seq<char>)
    requires
        image_parts(url) is Some,
        local_url(url) == "/cdn/"@ + path,
        ({
            let parts = image_parts(url).unwrap();
            &&& is_size(parts[0])
            &&& has_directories(stem(parts[4]))
            &&& parts[2] == single(parts[4][0])
            &&& parts[3] == single(parts[4][1])
            &&& !text::occurs(parts[4], "?"@)
        }),
    ensures
        upstream_of(path) == Some(url),
{
    let rest = without_prefix(url, "https://cards.scryfall.io/"@).unwrap();
    let parts = image_parts(url).unwrap();
    let size = parts[0];
    let file = parts[4];
    reveal_strlit("/cdn/cards/");
    reveal_strlit("/cdn/");
    reveal_strlit("cards/");
    reveal_strlit("symbols/");
    reveal_strlit("/");
    reveal_strlit("front");
    reveal_strlit("/front/");
    // The path.
    assert("/cdn/cards/"@ =~= "/cdn/"@ + "cards/"@);
    assert(path =~= ("/cdn/"@ + path).skip(5));
    assert(local_url(url).skip(5) =~= "cards/"@ + size + "/"@ + file);
    assert(path == "cards/"@ + size + "/"@ + file);
    assert(path.take(6) =~= "cards/"@);
    assert(path.take(8)[0] == 'c');
    assert(!begins(path, "symbols/"@)) by {
        if begins(path, "symbols/"@) {
            assert(path.take(8)[0] == "symbols/"@[0]);
        }
    }
    let tail = path.skip(6);
    assert(tail =~= size + "/"@ + file);
    text::lemma_split_pieces(rest, '/');
    assert(!split(rest, '/')[0].contains('/'));
    assert forall|j: int| 0 <= j < size.len() implies #[trigger] tail[j] != '/' by {
        assert(tail[j] == size[j]);
        assert(size.contains(size[j]));
    }
    assert(tail[size.len() as int] == '/');
    lemma_before(tail, '/', size.len() as int);
    assert(tail.take(size.len() as int) =~= size);
    assert(tail.skip(size.len() as int + 1) =~= file);
    // The address.
    text::law_split_then_join(rest, '/');
    let sep = seq!['/'];
    assert(parts.drop_last().drop_last().drop_last().drop_last() =~= seq![size]);
    reveal_with_fuel(text::joined, 6);
    assert(text::joined(parts, sep) =~= size + "/front/"@ + parts[2] + "/"@ + parts[3] + "/"@
        + file);
    assert(url =~= "https://cards.scryfall.io/"@ + rest);
    lemma_before_is_first(file, '.');
    assert(file[0] == stem(file)[0] && file[1] == stem(file)[1]);
    assert(upstream_of(path).unwrap() =~= url);
}

/// A path that leads up is refused, wherever it does so, and so is one with an
/// empty part.
pub proof fn law_climbing_refused(front: Seq<char>, back: Seq<char>)
    ensures
        !stays_below(front + seq!['/', '.', '.', '/'] + back),
        !stays_below(seq!['.', '.', '/'] + back),
        !stays_below(front + seq!['/', '.', '.']),
        !stays_below(seq!['.', '.']),
        !stays_below(front + seq!['/', '/'] + back),
        !stays_below(seq!['/'] + back),
        !stays_below(front + seq!['/']),
        !stays_below(Seq::<char>::empty()),
{
    reveal_strlit("..");
    let up = seq!['.', '.'];
    assert(".."@ =~= up);
    let nothing = Seq::<char>::empty();
    assert(!up.contains('/'));
    assert(!nothing.contains('/'));
    lemma_part_within(front, up, back);
    assert(front + seq!['/'] + (up + seq!['/'] + back) =~= front + seq!['/', '.', '.', '/'] + back);
    lemma_part_first(up, back);
    assert(up + seq!['/'] + back =~= seq!['.', '.', '/'] + back);
    lemma_part_last(front, up);
    assert(front + seq!['/'] + up =~= front + seq!['/', '.', '.']);
    lemma_part_alone(up);
    lemma_part_within(front, nothing, back);
    assert(front + seq!['/'] + (nothing + seq!['/'] + back) =~= front + seq!['/', '/'] + back);
    lemma_part_last(front, nothing);
    assert(front + seq!['/'] + nothing =~= front + seq!['/']);
    assert((seq!['/'] + back)[0] == '/');
}

/// The part is among the parts of the path.
spec fn has_part(path: Seq<char>, part: Seq<char>) -> bool {
    exists|k: int| 0 <= k < split(path, '/').len() && #[trigger] split(path, '/')[k] == part
}

proof fn lemma_part_alone(part: Seq<char>)
    requires
        !part.contains('/'),
    ensures
        has_part(part, part),
{
    assert forall|i: int| 0 <= i < part.len() implies #[trigger] part[i] != '/' by {
        assert(part.contains(part[i]));
    }
    lemma_before(part, '/', part.len() as int);
    assert(split(part, '/')[0] == part);
}

proof fn lemma_part_first(part: Seq<char>, back: Seq<char>)
    requires
        !part.contains('/'),
    ensures
        has_part(part + seq!['/'] + back, part),
{
    let s = part + seq!['/'] + back;
    let n = part.len() as int;
    assert forall|i: int| 0 <= i < n implies #[trigger] s[i] != '/' by {
        assert(part.contains(part[i]));
    }
    assert(s[n] == '/');
    lemma_before(s, '/', n);
    assert(s.take(n) =~= part);
    assert(split(s, '/')[0] == part);
}

proof fn lemma_part_behind(front: Seq<char>, s: Seq<char>, part: Seq<char>)
    requires
        has_part(s, part),
    ensures
        has_part(front + seq!['/'] + s, part),
    decreases front.len(),
{
    let all = front + seq!['/'] + s;
    let n = before(all, '/');
    lemma_before_is_first(all, '/');
    let m = front.len() as int;
    assert(all[m] == '/');
    assert(n <= m);
    let rest = all.skip(n + 1);
    if n == m {
        assert(rest =~= s);
    } else {
        let f = front.skip(n + 1);
        assert(rest =~= f + seq!['/'] + s);
        lemma_part_behind(f, s, part);
    }
    let k = choose|k: int| 0 <= k < split(rest, '/').len() && #[trigger] split(rest, '/')[k] == part;
    assert(split(all, '/')[k + 1] == part);
}

proof fn lemma_part_within(front: Seq<char>, part: Seq<char>, back: Seq<char>)
    requires
        !part.contains('/'),
    ensures
        has_part(front + seq!['/'] + (part + seq!['/'] + back), part),
{
    lemma_part_first(part, back);
    lemma_part_behind(front, part + seq!['/'] + back, part);
}

proof fn lemma_part_last(front: Seq<char>, part: Seq<char>)
    requires
        !part.contains('/'),
    ensures
        has_part(front + seq!['/'] + part, part),
{
    lemma_part_alone(part);
    lemma_part_behind(front, part, part);
}

/// A path of plain parts is not refused.
pub proof fn law_plain_paths(dir: Seq<char>, size: Seq<char>, file: Seq<char>)
    requires
        dir.len() > 0 && !dir.contains('/') && dir != seq!['.', '.'],
        size.len() > 0 && !size.contains('/') && size != seq!['.', '.'],
        file.len() > 0 && !file.contains('/') && file != seq!['.', '.'],
    ensures
        stays_below(dir + seq!['/'] + file),
        stays_below(dir + seq!['/'] + (size + seq!['/'] + file)),
        stays_below(file),
{
    reveal_strlit("..");
    assert(".."@ =~= seq!['.', '.']);
    assert(file.contains(file[0]));
    assert(dir.contains(dir[0]));
    lemma_parts_of(file, Seq::<char>::empty());
    lemma_parts_of(dir, file);
    lemma_parts_of(size, file);
    lemma_parts_of(dir, size + seq!['/'] + file);
    assert(split(dir + seq!['/'] + file, '/') =~= seq![dir, file]);
    assert(split(dir + seq!['/'] + (size + seq!['/'] + file), '/') =~= seq![dir, size, file]);
}

proof fn lemma_parts_of(part: Seq<char>, rest: Seq<char>)
    requires
        !part.contains('/'),
    ensures
        split(part + seq!['/'] + rest, '/') == seq![part] + split(rest, '/'),
        split(part, '/') == seq![part],
{
    let s = part + seq!['/'] + rest;
    let n = part.len() as int;
    assert forall|i: int| 0 <= i < n implies #[trigger] s[i] != '/' && part[i] != '/' by {
        assert(part.contains(part[i]));
    }
    assert(s[n] == '/');
    lemma_before(s, '/', n);
    lemma_before(part, '/', n);
    assert(s.take(n) =~= part);
    assert(s.skip(n + 1) =~= rest);
}

/// Where an image comes from: symbols from the place of symbols, and the image
/// of a card in one of its four sizes from a directory named by the first two
/// characters of the file. No other size comes from anywhere.
pub proof fn law_upstream(size: Seq<char>, a: char, b: char, name: Seq<char>, rest: Seq<char>)
    requires
        (a as u32) < 0x80 && (b as u32) < 0x80,
        a != '.' && b != '.',
        !size.contains('/'),
    ensures
        ({
            let file = seq![a, b] + name;
            let path = seq!['c', 'a', 'r', 'd', 's', '/'] + size + seq!['/'] + file;
            let known = size == "small"@ || size == "normal"@ || size == "large"@ || size == "png"@;
            &&& known ==> upstream_of(path) == Some(
                "https://cards.scryfall.io/"@ + size + "/front/"@ + seq![a] + "/"@ + seq![b] + "/"@
                    + file,
            )
            &&& !known ==> upstream_of(path) is None
            &&& upstream_of(seq!['s', 'y', 'm', 'b', 'o', 'l', 's', '/'] + rest) == Some(
                "https://svgs.scryfall.io/card-symbols/"@ + rest,
            )
        }),
{
    reveal_strlit("symbols/");
    reveal_strlit("cards/");
    let file = seq![a, b] + name;
    let c = seq!['c', 'a', 'r', 'd', 's', '/'];
    let y = seq!['s', 'y', 'm', 'b', 'o', 'l', 's', '/'];
    let path = c + size + seq!['/'] + file;
    assert("symbols/"@ =~= y);
    assert("cards/"@ =~= c);
    assert((y + rest).take(8) =~= y);
    assert((y + rest).skip(8) =~= rest);
    assert(path[0] == 'c');
    assert(!begins(path, y)) by {
        if begins(path, y) {
            assert(path.take(8)[0] == path[0]);
        }
    }
    assert(path.take(6) =~= c);
    let p = path.skip(6);
    let n = size.len() as int;
    assert(p =~= size + seq!['/'] + file);
    assert forall|i: int| 0 <= i < n implies #[trigger] p[i] != '/' by {
        assert(size.contains(size[i]));
    }
    assert(p[n] == '/');
    lemma_before(p, '/', n);
    assert(p.take(n) =~= size);
    assert(p.skip(n + 1) =~= file);
    assert(file[0] == a && file[1] == b);
    lemma_before_is_first(file, '.');
    let m = before(file, '.');
    assert(m >= 2) by {
        if m < 2 {
            assert(m < file.len());
            assert(file[m] == '.');
        }
    }
    let st = stem(file);
    assert(st.len() == m);
    assert(st[0] == a && st[1] == b);
}

/// A name that does not begin with two ASCII characters leads nowhere.
pub proof fn law_no_directory(size: Seq<char>, file: Seq<char>)
    requires
        !size.contains('/'),
        file.len() > 0,
        file.len() == 1 || file[0] as u32 >= 0x80 || file[1] as u32 >= 0x80 || file[1] == '.',
    ensures
        upstream_of(seq!['c', 'a', 'r', 'd', 's', '/'] + size + seq!['/'] + file) is None,
{
    reveal_strlit("symbols/");
    reveal_strlit("cards/");
    let c = seq!['c', 'a', 'r', 'd', 's', '/'];
    let y = seq!['s', 'y', 'm', 'b', 'o', 'l', 's', '/'];
    let path = c + size + seq!['/'] + file;
    assert("symbols/"@ =~= y);
    assert("cards/"@ =~= c);
    assert(path[0] == 'c');
    assert(!begins(path, y)) by {
        if begins(path, y) {
            assert(path.take(8)[0] == path[0]);
        }
    }
    assert(path.take(6) =~= c);
    let p = path.skip(6);
    let n = size.len() as int;
    assert(p =~= size + seq!['/'] + file);
    assert forall|i: int| 0 <= i < n implies #[trigger] p[i] != '/' by {
        assert(size.contains(size[i]));
    }
    assert(p[n] == '/');
    lemma_before(p, '/', n);
    assert(p.take(n) =~= size);
    assert(p.skip(n + 1) =~= file);
    lemma_before_is_first(file, '.');
    let m = before(file, '.');
    let st = stem(file);
    assert(st.len() == m);
    if m >= 2 {
        assert(st[0] == file[0] && st[1] == file[1]);
        assert(file[1] != '.');
    }
}

} // verus!

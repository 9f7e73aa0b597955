//! Text as sequences of characters: searching, trimming, splitting and the
//! decimal notation of numbers, each with a mathematical meaning on
//! `Seq<char>` and a function that computes it.
use vstd::prelude::*;
use vstd::string::StringExecFns;

verus! {

/// `String::push` appends one character at the end.
pub assume_specification[ String::push ](s: &mut String, c: char)
    ensures
        final(s)@ == old(s)@.push(c),
;

/// Whether `char::is_alphanumeric` holds of a character: that it is
/// alphabetic or numeric in Unicode.
pub uninterp spec fn alphanumeric(c: char) -> bool;

/// `char::is_alphanumeric` depends on the character alone, and holds of an
/// ASCII character where it is a letter or a digit.
pub assume_specification[ char::is_alphanumeric ](c: char) -> (r: bool)
    ensures
        r == alphanumeric(c),
        (c as u32) < 0x80 ==> r == ascii_letter_or_digit(c),
;

/// The Unicode lowercase of a text, as `str::to_lowercase` computes it.
pub uninterp spec fn lowercase(s: Seq<char>) -> Seq<char>;

/// The Unicode uppercase of a text, as `str::to_uppercase` computes it.
pub uninterp spec fn uppercase(s: Seq<char>) -> Seq<char>;

/// `str::to_lowercase` depends on the text alone, and makes the letters of an
/// ASCII text small.
pub assume_specification[ str::to_lowercase ](s: &str) -> (r: String)
    ensures
        r@ == lowercase(s@),
        all_ascii(s@) ==> r@ == ascii_lowercase(s@),
;

/// `str::to_uppercase` depends on the text alone, and makes the letters of an
/// ASCII text capital.
pub assume_specification[ str::to_uppercase ](s: &str) -> (r: String)
    ensures
        r@ == uppercase(s@),
        all_ascii(s@) ==> r@ == ascii_uppercase(s@),
;

/// An ASCII letter or digit.
pub open spec fn ascii_letter_or_digit(c: char) -> bool {
    ('0' <= c <= '9') || ('A' <= c <= 'Z') || ('a' <= c <= 'z')
}

/// A letter or digit: in ASCII one of those that are listed, and beyond it what
/// Unicode counts among them.
pub open spec fn letter_or_digit(c: char) -> bool {
    if (c as u32) < 0x80 {
        ascii_letter_or_digit(c)
    } else {
        alphanumeric(c)
    }
}

/// Whether a character is a letter or a digit.
pub fn is_letter_or_digit(c: char) -> (r: bool)
    ensures
        r == letter_or_digit(c),
{
    c.is_alphanumeric()
}

/// The text in lower case: in ASCII letter by letter, and beyond it as Unicode
/// has it.
pub open spec fn lower(s: Seq<char>) -> Seq<char> {
    if all_ascii(s) {
        ascii_lowercase(s)
    } else {
        lowercase(s)
    }
}

/// The text in lower case.
pub fn to_lower(s: &str) -> (r: String)
    ensures
        r@ == lower(s@),
{
    s.to_lowercase()
}

/// The text in upper case: in ASCII letter by letter, and beyond it as Unicode
/// has it.
pub open spec fn upper(s: Seq<char>) -> Seq<char> {
    if all_ascii(s) {
        ascii_uppercase(s)
    } else {
        uppercase(s)
    }
}

/// The text in upper case.
pub fn to_upper(s: &str) -> (r: String)
    ensures
        r@ == upper(s@),
{
    s.to_uppercase()
}

// ---------------------------------------------------------------------------
// Characters and strings
// ---------------------------------------------------------------------------

/// The characters of a text.
pub fn chars_of(s: &str) -> (out: Vec<char>)
    ensures
        out@ == s@,
{
    let mut out: Vec<char> = Vec::new();
    for c in it: s.chars()
        invariant
            out@ == it.seq().take(it.index() as int),
            it.seq() == s@,
    {
        out.push(c);
    }
    out
}

/// The text that a slice of characters spells.
pub fn string_of(chars: &[char]) -> (out: String)
    ensures
        out@ == chars@,
{
    let mut out = String::new();
    let mut i: usize = 0;
    while i < chars.len()
        invariant
            i <= chars@.len(),
            out@ == chars@.take(i as int),
        decreases chars@.len() - i,
    {
        out.push(chars[i]);
        i += 1;
        assert(chars@.take(i as int) =~= chars@.take(i - 1).push(chars@[i - 1]));
    }
    assert(chars@.take(i as int) =~= chars@);
    out
}

/// A text of one's own.
pub fn owned(s: &str) -> (r: String)
    ensures
        r@ == s@,
{
    let mut r = String::new();
    r.append(s);
    assert(r@ =~= s@);
    r
}

/// A copy of a list of texts.
pub fn copy_texts(list: &Vec<String>) -> (r: Vec<String>)
    ensures
        texts(r@) == texts(list@),
{
    let mut r: Vec<String> = Vec::new();
    let mut i: usize = 0;
    while i < list.len()
        invariant
            i <= list@.len(),
            r@.len() == i,
            forall|k: int| 0 <= k < i ==> (#[trigger] r@[k])@ == list@[k]@,
        decreases list@.len() - i,
    {
        r.push(list[i].clone());
        i += 1;
    }
    assert(texts(r@) =~= texts(list@));
    r
}

/// The text between two character positions.
pub fn slice_of(chars: &Vec<char>, from: usize, to: usize) -> (out: String)
    requires
        from <= to <= chars@.len(),
    ensures
        out@ == chars@.subrange(from as int, to as int),
{
    let mut out = String::new();
    let mut i: usize = from;
    while i < to
        invariant
            from <= i <= to <= chars@.len(),
            out@ == chars@.subrange(from as int, i as int),
        decreases to - i,
    {
        out.push(chars[i]);
        i += 1;
        assert(chars@.subrange(from as int, i as int) =~= chars@.subrange(from as int, i - 1).push(
            chars@[i - 1],
        ));
    }
    out
}

/// Whether two texts are the same.
pub fn same(a: &str, b: &str) -> (r: bool)
    ensures
        r == (a@ == b@),
{
    let x = chars_of(a);
    let y = chars_of(b);
    same_chars(&x, &y)
}

/// Whether two lists of characters are the same.
pub fn same_chars(a: &Vec<char>, b: &Vec<char>) -> (r: bool)
    ensures
        r == (a@ == b@),
{
    if a.len() != b.len() {
        return false;
    }
    let mut i: usize = 0;
    while i < a.len()
        invariant
            a@.len() == b@.len(),
            i <= a@.len(),
            forall|j: int| 0 <= j < i ==> a@[j] == b@[j],
        decreases a@.len() - i,
    {
        if a[i] != b[i] {
            return false;
        }
        i += 1;
    }
    assert(a@ =~= b@);
    true
}


// ---------------------------------------------------------------------------
// Prefixes and occurrences
// ---------------------------------------------------------------------------

/// `s` begins with `p`.
pub open spec fn begins(s: Seq<char>, p: Seq<char>) -> bool {
    p.len() <= s.len() && s.take(p.len() as int) == p
}

/// `s` ends with `p`.
pub open spec fn ends(s: Seq<char>, p: Seq<char>) -> bool {
    p.len() <= s.len() && s.skip(s.len() - p.len()) == p
}

/// `p` occurs in `s` at position `i`.
pub open spec fn occurs_at(s: Seq<char>, p: Seq<char>, i: int) -> bool {
    0 <= i && i + p.len() <= s.len() && s.subrange(i, i + p.len()) == p
}

/// `p` occurs somewhere in `s`.
pub open spec fn occurs(s: Seq<char>, p: Seq<char>) -> bool {
    exists|i: int| occurs_at(s, p, i)
}

/// `i` is the first position at which `p` occurs in `s`.
pub open spec fn first_at(s: Seq<char>, p: Seq<char>, i: int) -> bool {
    occurs_at(s, p, i) && forall|j: int| 0 <= j < i ==> !occurs_at(s, p, j)
}

/// What is left of `s` without the prefix `p`; nothing where `p` is no prefix.
pub open spec fn without_prefix(s: Seq<char>, p: Seq<char>) -> Option<Seq<char>> {
    if begins(s, p) {
        Some(s.skip(p.len() as int))
    } else {
        None
    }
}

/// The first position at which `p` occurs in `s`.
pub open spec fn position(s: Seq<char>, p: Seq<char>) -> int
    recommends
        occurs(s, p),
{
    choose|i: int| first_at(s, p, i)
}

/// `s` up to the first occurrence of `p`: all of it where there is none.
pub open spec fn up_to(s: Seq<char>, p: Seq<char>) -> Seq<char> {
    if occurs(s, p) {
        s.take(position(s, p))
    } else {
        s
    }
}

pub proof fn lemma_position(s: Seq<char>, p: Seq<char>, i: int)
    requires
        first_at(s, p, i),
    ensures
        occurs(s, p),
        position(s, p) == i,
{
    let j = position(s, p);
    assert(first_at(s, p, j));
    if i < j {
        assert(!occurs_at(s, p, i));
    } else if j < i {
        assert(!occurs_at(s, p, j));
    }
}

/// The texts that a list of strings holds.
pub open spec fn texts(list: Seq<String>) -> Seq<Seq<char>> {
    list.map_values(|s: String| s@)
}

/// The texts of a list with `sep` between them.
pub open spec fn joined(list: Seq<Seq<char>>, sep: Seq<char>) -> Seq<char>
    decreases list.len(),
{
    if list.len() == 0 {
        seq![]
    } else if list.len() == 1 {
        list[0]
    } else {
        joined(list.drop_last(), sep) + sep + list.last()
    }
}

/// The texts of a list with `sep` between them.
pub fn join(list: &Vec<String>, sep: &str) -> (r: String)
    ensures
        r@ == joined(texts(list@), sep@),
{
    let ghost all = texts(list@);
    let mut r = String::new();
    let mut k: usize = 0;
    assert(r@ =~= joined(all.take(0), sep@));
    while k < list.len()
        invariant
            k <= list@.len(),
            all == texts(list@),
            r@ == joined(all.take(k as int), sep@),
        decreases list@.len() - k,
    {
        assert(all.take(k + 1).drop_last() =~= all.take(k as int));
        if k > 0 {
            r.append(sep);
        }
        r.append(list[k].as_str());
        k += 1;
        assert(r@ =~= joined(all.take(k as int), sep@));
    }
    assert(all.take(k as int) =~= all);
    r
}

/// Whether `p` occurs in `s` at position `at`.
pub fn match_at(s: &Vec<char>, p: &Vec<char>, at: usize) -> (r: bool)
    ensures
        r == occurs_at(s@, p@, at as int),
{
    if at > s.len() || p.len() > s.len() - at {
        return false;
    }
    let mut k: usize = 0;
    while k < p.len()
        invariant
            k <= p@.len(),
            at + p.len() <= s.len(),
            forall|j: int| 0 <= j < k ==> s@[at + j] == p@[j],
        decreases p@.len() - k,
    {
        if s[at + k] != p[k] {
            assert(s@.subrange(at as int, at + p@.len())[k as int] != p@[k as int]);
            return false;
        }
        k += 1;
    }
    assert(s@.subrange(at as int, at + p@.len()) =~= p@);
    true
}

/// Whether `s` begins with `p`.
pub fn has_prefix(s: &str, p: &str) -> (r: bool)
    ensures
        r == begins(s@, p@),
{
    let a = chars_of(s);
    let b = chars_of(p);
    let r = match_at(&a, &b, 0);
    proof {
        if p@.len() <= s@.len() {
            assert(s@.subrange(0, p@.len() as int) =~= s@.take(p@.len() as int));
        }
    }
    r
}

/// Whether `s` ends with `p`.
pub fn has_suffix(s: &str, p: &str) -> (r: bool)
    ensures
        r == ends(s@, p@),
{
    let a = chars_of(s);
    let b = chars_of(p);
    if b.len() > a.len() {
        return false;
    }
    proof {
        assert(s@.subrange(s@.len() - p@.len(), s@.len() as int) =~= s@.skip(s@.len() - p@.len()));
    }
    match_at(&a, &b, a.len() - b.len())
}

/// The first position, from `from` on, at which `p` occurs in `s`.
pub fn find_from(s: &Vec<char>, p: &Vec<char>, from: usize) -> (r: Option<usize>)
    ensures
        match r {
            Some(i) => from <= i && occurs_at(s@, p@, i as int) && forall|j: int|
                from <= j < i ==> !occurs_at(s@, p@, j),
            None => forall|j: int| from <= j ==> !occurs_at(s@, p@, j),
        },
{
    let mut i: usize = from;
    while i <= s.len()
        invariant
            from <= i,
            forall|j: int| from <= j < i ==> !occurs_at(s@, p@, j),
        decreases s@.len() + 1 - i,
    {
        if match_at(s, p, i) {
            return Some(i);
        }
        if i == usize::MAX {
            return None;
        }
        i += 1;
    }
    None
}

/// The first position at which `p` occurs in `s`.
pub fn find(s: &Vec<char>, p: &Vec<char>) -> (r: Option<usize>)
    ensures
        match r {
            Some(i) => occurs(s@, p@) && i == position(s@, p@) && i + p.len() <= s.len(),
            None => !occurs(s@, p@),
        },
{
    let r = find_from(s, p, 0);
    proof {
        if let Some(i) = r {
            assert(first_at(s@, p@, i as int));
            lemma_position(s@, p@, i as int);
        }
    }
    r
}

/// `s` up to the first occurrence of `p`.
pub fn cut(s: &str, p: &str) -> (r: String)
    ensures
        r@ == up_to(s@, p@),
{
    let a = chars_of(s);
    let b = chars_of(p);
    match find(&a, &b) {
        Some(i) => {
            proof {
                assert(s@.subrange(0, i as int) =~= s@.take(i as int));
            }
            slice_of(&a, 0, i)
        },
        None => string_of(a.as_slice()),
    }
}

/// Whether `p` occurs in `s`.
pub fn has(s: &str, p: &str) -> (r: bool)
    ensures
        r == occurs(s@, p@),
{
    let a = chars_of(s);
    let b = chars_of(p);
    find_from(&a, &b, 0).is_some()
}

/// Whether `s` holds the character `c`.
pub fn has_char(s: &Vec<char>, c: char) -> (r: bool)
    ensures
        r == s@.contains(c),
{
    let mut i: usize = 0;
    while i < s.len()
        invariant
            i <= s@.len(),
            forall|j: int| 0 <= j < i ==> s@[j] != c,
        decreases s@.len() - i,
    {
        if s[i] == c {
            assert(s@[i as int] == c);
            return true;
        }
        i += 1;
    }
    false
}

/// `s` without the prefix `p`; nothing where `p` is no prefix.
pub fn strip(s: &str, p: &str) -> (r: Option<String>)
    ensures
        match r {
            Some(t) => without_prefix(s@, p@) == Some(t@),
            None => without_prefix(s@, p@) is None,
        },
{
    let a = chars_of(s);
    let b = chars_of(p);
    if has_prefix(s, p) {
        proof {
            assert(s@.subrange(p@.len() as int, s@.len() as int) =~= s@.skip(p@.len() as int));
        }
        Some(slice_of(&a, b.len(), a.len()))
    } else {
        None
    }
}

// ---------------------------------------------------------------------------
// White space
// ---------------------------------------------------------------------------

/// The characters with the Unicode property `White_Space`.
pub open spec fn is_ws(c: char) -> bool {
    let n = c as u32;
    ||| 0x9 <= n <= 0xd
    ||| n == 0x20
    ||| n == 0x85
    ||| n == 0xa0
    ||| n == 0x1680
    ||| 0x2000 <= n <= 0x200a
    ||| n == 0x2028
    ||| n == 0x2029
    ||| n == 0x202f
    ||| n == 0x205f
    ||| n == 0x3000
}

/// Whether `c` is white space.
pub fn white(c: char) -> (r: bool)
    ensures
        r == is_ws(c),
{
    let n: u32 = c as u32;
    (0x9 <= n && n <= 0xd) || n == 0x20 || n == 0x85 || n == 0xa0 || n == 0x1680 || (0x2000 <= n
        && n <= 0x200a) || n == 0x2028 || n == 0x2029 || n == 0x202f || n == 0x205f || n == 0x3000
}

/// `s` without the white space at its beginning.
pub open spec fn trimmed_start(s: Seq<char>) -> Seq<char>
    decreases s.len(),
{
    if s.len() > 0 && is_ws(s[0]) {
        trimmed_start(s.skip(1))
    } else {
        s
    }
}

/// `s` without the white space at its end.
pub open spec fn trimmed_end(s: Seq<char>) -> Seq<char>
    decreases s.len(),
{
    if s.len() > 0 && is_ws(s.last()) {
        trimmed_end(s.drop_last())
    } else {
        s
    }
}

/// `s` without the white space at both its ends.
pub open spec fn trimmed(s: Seq<char>) -> Seq<char> {
    trimmed_end(trimmed_start(s))
}

/// A text that was trimmed does not begin with white space.
pub proof fn lemma_trimmed_first(s: Seq<char>)
    ensures
        trimmed(s).len() > 0 ==> !is_ws(trimmed(s)[0]),
{
    lemma_start_first(s);
    lemma_end_first(trimmed_start(s));
}

proof fn lemma_start_first(s: Seq<char>)
    ensures
        trimmed_start(s).len() > 0 ==> !is_ws(trimmed_start(s)[0]),
    decreases s.len(),
{
    if s.len() > 0 && is_ws(s[0]) {
        lemma_start_first(s.skip(1));
    }
}

proof fn lemma_end_first(s: Seq<char>)
    ensures
        trimmed_end(s).len() > 0 ==> s.len() > 0 && trimmed_end(s)[0] == s[0],
    decreases s.len(),
{
    if s.len() > 0 && is_ws(s.last()) {
        lemma_end_first(s.drop_last());
    }
}

proof fn lemma_trimmed_start(s: Seq<char>, n: int)
    requires
        0 <= n <= s.len(),
        forall|j: int| 0 <= j < n ==> is_ws(#[trigger] s[j]),
        n < s.len() ==> !is_ws(s[n]),
    ensures
        trimmed_start(s) == s.skip(n),
    decreases n,
{
    if n > 0 {
        assert(is_ws(s[0]));
        let t = s.skip(1);
        assert forall|j: int| 0 <= j < n - 1 implies is_ws(#[trigger] t[j]) by {
            assert(t[j] == s[j + 1]);
        }
        lemma_trimmed_start(t, n - 1);
        assert(t.skip(n - 1) =~= s.skip(n));
    } else {
        assert(s.skip(0) =~= s);
    }
}

proof fn lemma_trimmed_end(s: Seq<char>, n: int)
    requires
        0 <= n <= s.len(),
        forall|j: int| n <= j < s.len() ==> is_ws(#[trigger] s[j]),
        n > 0 ==> !is_ws(s[n - 1]),
    ensures
        trimmed_end(s) == s.take(n),
    decreases s.len() - n,
{
    if n < s.len() {
        assert(is_ws(s[s.len() - 1]));
        lemma_trimmed_end(s.drop_last(), n);
        assert(s.drop_last().take(n) =~= s.take(n));
    } else {
        assert(s.take(n) =~= s);
    }
}

/// Trimming makes no text longer.
pub proof fn lemma_trimmed_len(s: Seq<char>)
    ensures
        trimmed_start(s).len() <= s.len(),
        trimmed_end(s).len() <= s.len(),
        trimmed(s).len() <= s.len(),
    decreases s.len(),
{
    if s.len() > 0 {
        lemma_trimmed_len(s.skip(1));
        lemma_trimmed_len(s.drop_last());
    }
    lemma_trimmed_end_len(trimmed_start(s));
}

proof fn lemma_trimmed_end_len(s: Seq<char>)
    ensures
        trimmed_end(s).len() <= s.len(),
    decreases s.len(),
{
    if s.len() > 0 {
        lemma_trimmed_end_len(s.drop_last());
    }
}

/// `s` without the characters `c` at its beginning.
pub open spec fn without_leading(s: Seq<char>, c: char) -> Seq<char>
    decreases s.len(),
{
    if s.len() > 0 && s[0] == c {
        without_leading(s.skip(1), c)
    } else {
        s
    }
}

/// `s` without the characters `c` at its beginning.
pub fn drop_leading(s: &str, c: char) -> (r: String)
    ensures
        r@ == without_leading(s@, c),
        r@.len() <= s@.len(),
{
    let a = chars_of(s);
    let mut n: usize = 0;
    assert(a@.skip(0) =~= a@);
    while n < a.len() && a[n] == c
        invariant
            n <= a@.len(),
            without_leading(a@, c) == without_leading(a@.skip(n as int), c),
        decreases a@.len() - n,
    {
        assert(a@.skip(n as int).skip(1) =~= a@.skip(n + 1));
        n += 1;
    }
    assert(a@.subrange(n as int, a@.len() as int) =~= a@.skip(n as int));
    slice_of(&a, n, a.len())
}

/// `s` without the white space at its beginning.
pub fn trim_start(s: &str) -> (r: String)
    ensures
        r@ == trimmed_start(s@),
{
    let a = chars_of(s);
    let mut n: usize = 0;
    while n < a.len() && white(a[n])
        invariant
            n <= a@.len(),
            forall|j: int| 0 <= j < n ==> is_ws(#[trigger] a@[j]),
        decreases a@.len() - n,
    {
        n += 1;
    }
    proof {
        lemma_trimmed_start(s@, n as int);
        assert(s@.subrange(n as int, s@.len() as int) =~= s@.skip(n as int));
    }
    slice_of(&a, n, a.len())
}

/// `s` without the white space at both its ends.
pub fn trim(s: &str) -> (r: String)
    ensures
        r@ == trimmed(s@),
{
    let left = trim_start(s);
    let a = chars_of(left.as_str());
    let mut n: usize = a.len();
    while n > 0 && white(a[n - 1])
        invariant
            n <= a@.len(),
            forall|j: int| n <= j < a@.len() ==> is_ws(#[trigger] a@[j]),
        decreases n,
    {
        n -= 1;
    }
    proof {
        lemma_trimmed_end(a@, n as int);
        assert(a@.subrange(0, n as int) =~= a@.take(n as int));
    }
    slice_of(&a, 0, n)
}

// ---------------------------------------------------------------------------
// Splitting
// ---------------------------------------------------------------------------

/// How many characters stand in `s` before the first `c`: all of them where
/// `c` does not occur.
pub open spec fn before(s: Seq<char>, c: char) -> int
    decreases s.len(),
{
    if s.len() == 0 || s[0] == c {
        0
    } else {
        1 + before(s.skip(1), c)
    }
}

pub proof fn lemma_before(s: Seq<char>, c: char, n: int)
    requires
        0 <= n <= s.len(),
        forall|j: int| 0 <= j < n ==> #[trigger] s[j] != c,
        n < s.len() ==> s[n] == c,
    ensures
        before(s, c) == n,
    decreases n,
{
    if n > 0 {
        assert(s[0] != c);
        let t = s.skip(1);
        assert forall|j: int| 0 <= j < n - 1 implies #[trigger] t[j] != c by {
            assert(t[j] == s[j + 1]);
        }
        lemma_before(t, c, n - 1);
    }
}

/// `before` is the first position of `c`, or the length where there is none.
pub proof fn lemma_before_is_first(s: Seq<char>, c: char)
    ensures
        0 <= before(s, c) <= s.len(),
        before(s, c) < s.len() ==> s[before(s, c)] == c,
        forall|j: int| 0 <= j < before(s, c) ==> #[trigger] s[j] != c,
    decreases s.len(),
{
    if s.len() == 0 || s[0] == c {
    } else {
        let t = s.skip(1);
        lemma_before_is_first(t, c);
        assert forall|j: int| 0 <= j < before(s, c) implies #[trigger] s[j] != c by {
            if j > 0 {
                assert(t[j - 1] == s[j]);
            }
        }
    }
}

/// The position of the first `c` in `s` from `from` on, counted from `from`.
pub fn count_before(s: &Vec<char>, c: char, from: usize) -> (n: usize)
    requires
        from <= s@.len(),
    ensures
        n == before(s@.skip(from as int), c),
        from + n <= s.len(),
        from + n < s@.len() ==> s@[from + n] == c,
{
    let mut i: usize = from;
    while i < s.len() && s[i] != c
        invariant
            from <= i <= s@.len(),
            forall|j: int| from <= j < i ==> s@[j] != c,
        decreases s@.len() - i,
    {
        i += 1;
    }
    proof {
        let t = s@.skip(from as int);
        assert forall|j: int| 0 <= j < i - from implies #[trigger] t[j] != c by {
            assert(t[j] == s@[from + j]);
        }
        lemma_before(t, c, i - from);
    }
    i - from
}

/// The pieces of `s` between the occurrences of `c`, as `str::split` gives
/// them: always one more than there are occurrences.
pub open spec fn split(s: Seq<char>, c: char) -> Seq<Seq<char>>
    decreases s.len(),
    via split_decreases
{
    let n = before(s, c);
    if n >= s.len() {
        seq![s]
    } else {
        seq![s.take(n)] + split(s.skip(n + 1), c)
    }
}

#[via_fn]
proof fn split_decreases(s: Seq<char>, c: char) {
    lemma_before_is_first(s, c);
}

/// The pieces of a text between the occurrences of `c`.
pub fn split_at_char(s: &Vec<char>, c: char) -> (out: Vec<Vec<char>>)
    ensures
        out@.len() == split(s@, c).len(),
        forall|k: int| 0 <= k < out@.len() ==> (#[trigger] out@[k])@ == split(s@, c)[k],
{
    let mut out: Vec<Vec<char>> = Vec::new();
    let mut at: usize = 0;
    let ghost mut done: Seq<Seq<char>> = Seq::empty();
    assert(s@.skip(0) =~= s@);
    assert(done + split(s@, c) =~= split(s@, c));
    loop
        invariant
            at <= s@.len(),
            done.len() == out@.len(),
            forall|k: int| 0 <= k < out@.len() ==> (#[trigger] out@[k])@ == done[k],
            done + split(s@.skip(at as int), c) == split(s@, c),
        decreases s@.len() - at,
    {
        let n: usize = count_before(s, c, at);
        let piece = copy_range(s, at, at + n);
        let ghost rest = s@.skip(at as int);
        assert(piece@ =~= rest.take(n as int));
        out.push(piece);
        if at + n == s.len() {
            proof {
                assert(rest.take(n as int) =~= rest);
                assert(split(rest, c) =~= seq![rest]);
            }
            return out;
        }
        proof {
            assert(rest.skip(n + 1) =~= s@.skip(at + n + 1));
            let tail = split(s@.skip(at + n + 1), c);
            assert(split(rest, c) == seq![rest.take(n as int)] + tail);
            assert(done + (seq![rest.take(n as int)] + tail) =~= done.push(rest.take(n as int))
                + tail);
            done = done.push(rest.take(n as int));
        }
        at = at + n + 1;
    }
}

/// The characters between two positions.
pub fn copy_range(s: &Vec<char>, from: usize, to: usize) -> (out: Vec<char>)
    requires
        from <= to <= s@.len(),
    ensures
        out@ == s@.subrange(from as int, to as int),
{
    let mut out: Vec<char> = Vec::new();
    let mut i: usize = from;
    while i < to
        invariant
            from <= i <= to <= s@.len(),
            out@ == s@.subrange(from as int, i as int),
        decreases to - i,
    {
        out.push(s[i]);
        i += 1;
        assert(s@.subrange(from as int, i as int) =~= s@.subrange(from as int, i - 1).push(
            s@[i - 1],
        ));
    }
    out
}

/// No piece holds the character that the text was split at.
pub proof fn lemma_split_pieces(s: Seq<char>, c: char)
    ensures
        split(s, c).len() > 0,
        forall|k: int| 0 <= k < split(s, c).len() ==> !(#[trigger] split(s, c)[k]).contains(c),
    decreases s.len(),
{
    lemma_before_is_first(s, c);
    let n = before(s, c);
    if n < s.len() {
        let rest = s.skip(n + 1);
        lemma_split_pieces(rest, c);
        assert forall|k: int| 0 <= k < split(s, c).len() implies !(#[trigger] split(
            s,
            c,
        )[k]).contains(c) by {
            if k > 0 {
                assert(split(s, c)[k] == split(rest, c)[k - 1]);
            } else {
                assert(split(s, c)[0] == s.take(n));
            }
        }
    } else {
        assert(split(s, c) =~= seq![s]);
    }
}

/// The pieces of a text with the character between them are the text.
pub proof fn law_split_then_join(s: Seq<char>, c: char)
    ensures
        joined(split(s, c), seq![c]) == s,
    decreases s.len(),
{
    lemma_before_is_first(s, c);
    let n = before(s, c);
    if n < s.len() {
        let rest = s.skip(n + 1);
        law_split_then_join(rest, c);
        lemma_split_pieces(rest, c);
        lemma_joined_front(s.take(n), split(rest, c), seq![c]);
        assert(s.take(n) + seq![c] + rest =~= s);
    } else {
        assert(split(s, c) =~= seq![s]);
    }
}

/// Joining may begin at the front as well.
pub proof fn lemma_joined_front(first: Seq<char>, rest: Seq<Seq<char>>, sep: Seq<char>)
    requires
        rest.len() > 0,
    ensures
        joined(seq![first] + rest, sep) == first + sep + joined(rest, sep),
    decreases rest.len(),
{
    let all = seq![first] + rest;
    assert(all.drop_last() =~= seq![first] + rest.drop_last());
    assert(all.last() == rest.last());
    if rest.len() == 1 {
        assert(rest.drop_last() =~= Seq::<Seq<char>>::empty());
        assert(all.drop_last() =~= seq![first]);
        assert(joined(all.drop_last(), sep) == first);
    } else {
        lemma_joined_front(first, rest.drop_last(), sep);
        assert(first + sep + joined(rest.drop_last(), sep) + sep + rest.last() =~= first + sep + (
        joined(rest.drop_last(), sep) + sep + rest.last()));
    }
}

/// How many bytes a character takes in UTF-8.
pub open spec fn char_bytes(c: char) -> nat {
    let n = c as u32;
    if n < 0x80 {
        1
    } else if n < 0x800 {
        2
    } else if n < 0x1_0000 {
        3
    } else {
        4
    }
}

/// How many bytes a text takes in UTF-8.
pub open spec fn byte_len(s: Seq<char>) -> nat
    decreases s.len(),
{
    if s.len() == 0 {
        0
    } else {
        byte_len(s.drop_last()) + char_bytes(s.last())
    }
}

/// A text takes at least as many bytes as it has characters.
pub proof fn lemma_byte_len(s: Seq<char>)
    ensures
        byte_len(s) >= s.len(),
    decreases s.len(),
{
    if s.len() > 0 {
        lemma_byte_len(s.drop_last());
    }
}

/// Whether a text takes at least two bytes in UTF-8.
pub fn has_two_bytes(s: &Vec<char>) -> (r: bool)
    ensures
        r == (byte_len(s@) >= 2),
{
    proof {
        lemma_byte_len(s@);
    }
    if s.len() >= 2 {
        return true;
    }
    if s.len() == 0 {
        return false;
    }
    assert(s@.drop_last() =~= Seq::<char>::empty());
    assert(byte_len(s@) == char_bytes(s@[0])) by {
        reveal_with_fuel(byte_len, 2);
    }
    s[0] as u32 >= 0x80
}

/// A line without the carriage return at its end.
pub open spec fn without_cr(s: Seq<char>) -> Seq<char> {
    if s.len() > 0 && s.last() == '\r' {
        s.drop_last()
    } else {
        s
    }
}

/// The lines of a text: what stands before each line feed, with a carriage
/// return before the line feed taken off, then what follows the last line
/// feed unless that is empty.
pub open spec fn lines(s: Seq<char>) -> Seq<Seq<char>>
    decreases s.len(),
    via lines_decreases
{
    let n = before(s, '\n');
    if s.len() == 0 {
        seq![]
    } else if n >= s.len() {
        seq![s]
    } else {
        seq![without_cr(s.take(n))] + lines(s.skip(n + 1))
    }
}

#[via_fn]
proof fn lines_decreases(s: Seq<char>) {
    lemma_before_is_first(s, '\n');
}

/// The lines of a text.
pub fn lines_of(s: &Vec<char>) -> (out: Vec<Vec<char>>)
    ensures
        out@.len() == lines(s@).len(),
        forall|k: int| 0 <= k < out@.len() ==> (#[trigger] out@[k])@ == lines(s@)[k],
{
    let mut out: Vec<Vec<char>> = Vec::new();
    let mut at: usize = 0;
    let ghost mut done: Seq<Seq<char>> = Seq::empty();
    assert(s@.skip(0) =~= s@);
    assert(done + lines(s@) =~= lines(s@));
    while at < s.len()
        invariant
            at <= s@.len(),
            done.len() == out@.len(),
            forall|k: int| 0 <= k < out@.len() ==> (#[trigger] out@[k])@ == done[k],
            done + lines(s@.skip(at as int)) == lines(s@),
        decreases s@.len() - at,
    {
        let n: usize = count_before(s, '\n', at);
        let ghost rest = s@.skip(at as int);
        if at + n == s.len() {
            let piece = copy_range(s, at, at + n);
            assert(piece@ =~= rest);
            out.push(piece);
            proof {
                assert(lines(rest) =~= seq![rest]);
                assert(done + seq![rest] =~= done.push(rest));
                done = done.push(rest);
                assert(s@.skip(s@.len() as int) =~= Seq::<char>::empty());
                assert(done + lines(Seq::<char>::empty()) =~= done);
            }
            at = s.len();
        } else {
            let mut end: usize = at + n;
            if n > 0 && s[end - 1] == '\r' {
                end = end - 1;
            }
            let piece = copy_range(s, at, end);
            assert(piece@ =~= without_cr(rest.take(n as int)));
            out.push(piece);
            proof {
                assert(rest.skip(n + 1) =~= s@.skip(at + n + 1));
                let line = without_cr(rest.take(n as int));
                let tail = lines(s@.skip(at + n + 1));
                assert(lines(rest) == seq![line] + tail);
                assert(done + (seq![line] + tail) =~= done.push(line) + tail);
                done = done.push(line);
            }
            at = at + n + 1;
        }
    }
    assert(s@.skip(at as int) =~= Seq::<char>::empty());
    assert(done + lines(Seq::<char>::empty()) =~= done);
    out
}

/// A line at the end of a text that ends with a line feed is one line more.
pub proof fn lemma_lines_push(s: Seq<char>, line: Seq<char>)
    requires
        s.len() == 0 || s.last() == '\n',
        !line.contains('\n'),
    ensures
        lines(s + line + seq!['\n']) == lines(s).push(without_cr(line)),
    decreases s.len(),
{
    let all = s + line + seq!['\n'];
    let n = before(all, '\n');
    lemma_before_is_first(all, '\n');
    if s.len() == 0 {
        assert forall|j: int| 0 <= j < line.len() implies all[j] != '\n' by {
            assert(all[j] == line[j]);
            assert(line.contains(line[j]));
        }
        assert(all[line.len() as int] == '\n');
        lemma_before(all, '\n', line.len() as int);
        assert(all.take(n) =~= line);
        assert(all.skip(n + 1) =~= s);
        assert(lines(s) =~= seq![]);
        assert(lines(all) == seq![without_cr(line)] + lines(s));
    } else {
        let m = before(s, '\n');
        lemma_before_is_first(s, '\n');
        assert(s[s.len() - 1] == '\n');
        assert(all[m] == s[m]);
        assert forall|j: int| 0 <= j < m implies all[j] != '\n' by {
            assert(all[j] == s[j]);
        }
        lemma_before(all, '\n', m);
        let rest = s.skip(m + 1);
        lemma_lines_push(rest, line);
        assert(all.take(n) =~= s.take(m));
        assert(all.skip(n + 1) =~= rest + line + seq!['\n']);
        assert(lines(all) =~= lines(s).push(without_cr(line)));
    }
}


// ---------------------------------------------------------------------------
// Numbers
// ---------------------------------------------------------------------------

/// A decimal digit.
pub open spec fn is_digit(c: char) -> bool {
    '0' <= c <= '9'
}

/// Every character is a decimal digit.
pub open spec fn all_digits(s: Seq<char>) -> bool {
    forall|i: int| 0 <= i < s.len() ==> is_digit(#[trigger] s[i])
}

/// The number that a row of decimal digits denotes.
pub open spec fn value(s: Seq<char>) -> nat
    decreases s.len(),
{
    if s.len() == 0 {
        0
    } else {
        value(s.drop_last()) * 10 + (s.last() as nat - '0' as nat) as nat
    }
}

/// A text without a plus sign in front.
pub open spec fn unsigned_part(s: Seq<char>) -> Seq<char> {
    if s.len() > 0 && s[0] == '+' {
        s.skip(1)
    } else {
        s
    }
}

/// The number that a text denotes, as Rust reads an unsigned integer with the
/// largest value `max`: an optional plus sign, then at least one decimal digit
/// and nothing else.
pub open spec fn number(s: Seq<char>, max: nat) -> Option<nat> {
    let d = unsigned_part(s);
    if d.len() > 0 && all_digits(d) && value(d) <= max {
        Some(value(d))
    } else {
        None
    }
}

proof fn lemma_value_grows(s: Seq<char>, n: int)
    requires
        0 <= n <= s.len(),
        all_digits(s),
    ensures
        value(s.take(n)) <= value(s),
    decreases s.len() - n,
{
    if n < s.len() {
        let t = s.drop_last();
        lemma_value_grows(t, n);
        assert(t.take(n) =~= s.take(n));
        assert(is_digit(s[s.len() - 1]));
    } else {
        assert(s.take(n) =~= s);
    }
}

/// Reads an unsigned integer no larger than `max`.
pub fn parse_number(s: &Vec<char>, max: u32) -> (r: Option<u32>)
    ensures
        match r {
            Some(n) => number(s@, max as nat) == Some(n as nat),
            None => number(s@, max as nat) is None,
        },
{
    let mut i: usize = 0;
    if s.len() > 0 && s[0] == '+' {
        i = 1;
    }
    let ghost d = unsigned_part(s@);
    let ghost off = i as int;
    proof {
        if off == 0 {
            assert(s@.skip(0) =~= s@);
        }
        assert(d == s@.skip(off));
    }
    if i == s.len() {
        return None;
    }
    let mut acc: u64 = 0;
    assert(d.take(0) =~= Seq::<char>::empty());
    while i < s.len()
        invariant
            off <= i <= s@.len(),
            0 <= off <= 1,
            d == s@.skip(off),
            d == unsigned_part(s@),
            acc <= max,
            forall|j: int| 0 <= j < i - off ==> is_digit(#[trigger] d[j]),
            acc == value(d.take(i - off)),
        decreases s@.len() - i,
    {
        let c = s[i];
        assert(d[i - off] == c);
        if !('0' <= c && c <= '9') {
            assert(!is_digit(d[i - off]));
            return None;
        }
        let digit: u64 = (c as u32 - '0' as u32) as u64;
        proof {
            assert(d.take(i - off + 1).drop_last() =~= d.take(i - off));
            assert(d.take(i - off + 1).last() == c);
        }
        acc = acc * 10 + digit;
        i += 1;
        if acc > max as u64 {
            proof {
                if all_digits(d) {
                    lemma_value_grows(d, i - off);
                }
            }
            return None;
        }
    }
    assert(d.take(i - off) =~= d);
    Some(acc as u32)
}

/// The decimal digit that denotes `n`.
pub open spec fn digit_char(n: nat) -> char {
    if n == 0 {
        '0'
    } else if n == 1 {
        '1'
    } else if n == 2 {
        '2'
    } else if n == 3 {
        '3'
    } else if n == 4 {
        '4'
    } else if n == 5 {
        '5'
    } else if n == 6 {
        '6'
    } else if n == 7 {
        '7'
    } else if n == 8 {
        '8'
    } else {
        '9'
    }
}

/// The decimal notation of `n`.
pub open spec fn decimal(n: nat) -> Seq<char>
    decreases n,
{
    if n < 10 {
        seq![digit_char(n)]
    } else {
        decimal(n / 10).push(digit_char(n % 10))
    }
}

/// The decimal notation of an integer, with a minus sign where it is negative.
pub open spec fn decimal_int(n: int) -> Seq<char> {
    if n < 0 {
        seq!['-'] + decimal((-n) as nat)
    } else {
        decimal(n as nat)
    }
}

/// The decimal notation of a number is read back as the number.
pub proof fn law_decimal_reads_back(n: nat, max: nat)
    requires
        n <= max,
    ensures
        decimal(n).len() > 0,
        all_digits(decimal(n)),
        number(decimal(n), max) == Some(n),
{
    lemma_decimal_value(n);
    assert(is_digit(decimal(n)[0]));
}

proof fn lemma_decimal_value(n: nat)
    ensures
        decimal(n).len() > 0,
        all_digits(decimal(n)),
        value(decimal(n)) == n,
    decreases n,
{
    if n < 10 {
        assert(decimal(n).drop_last() =~= Seq::<char>::empty());
        assert(value(decimal(n).drop_last()) == 0);
    } else {
        lemma_decimal_value(n / 10);
        assert(decimal(n).drop_last() =~= decimal(n / 10));
        assert forall|i: int| 0 <= i < decimal(n).len() implies is_digit(
            #[trigger] decimal(n)[i],
        ) by {
            if i < decimal(n / 10).len() {
                assert(decimal(n)[i] == decimal(n / 10)[i]);
            }
        }
    }
}

/// Numbers from a hundred on have at least three digits, and those below ten
/// millions at most seven.
pub proof fn lemma_decimal_len(n: nat)
    ensures
        n >= 10 ==> decimal(n).len() >= 2,
        n >= 100 ==> decimal(n).len() >= 3,
        n < 10 ==> decimal(n).len() <= 1,
        n < 100 ==> decimal(n).len() <= 2,
        n < 1_000 ==> decimal(n).len() <= 3,
        n < 10_000 ==> decimal(n).len() <= 4,
        n < 100_000 ==> decimal(n).len() <= 5,
        n < 1_000_000 ==> decimal(n).len() <= 6,
        n < 10_000_000 ==> decimal(n).len() <= 7,
    decreases n,
{
    if n >= 10 {
        lemma_decimal_len(n / 10);
        lemma_decimal_value(n / 10);
    }
}

fn digit_of(n: u64) -> (c: char)
    requires
        n < 10,
    ensures
        c == digit_char(n as nat),
{
    if n == 0 {
        '0'
    } else if n == 1 {
        '1'
    } else if n == 2 {
        '2'
    } else if n == 3 {
        '3'
    } else if n == 4 {
        '4'
    } else if n == 5 {
        '5'
    } else if n == 6 {
        '6'
    } else if n == 7 {
        '7'
    } else if n == 8 {
        '8'
    } else {
        '9'
    }
}

/// Appends the decimal notation of `n`.
pub fn push_decimal(out: &mut String, n: u64)
    ensures
        final(out)@ == old(out)@ + decimal(n as nat),
    decreases n,
{
    if n < 10 {
        out.push(digit_of(n));
        assert(out@ =~= old(out)@ + decimal(n as nat));
    } else {
        push_decimal(out, n / 10);
        out.push(digit_of(n % 10));
        assert(out@ =~= old(out)@ + decimal(n as nat));
    }
}

/// Appends the decimal notation of a signed integer.
pub fn push_decimal_int(out: &mut String, n: i64)
    ensures
        final(out)@ == old(out)@ + decimal_int(n as int),
{
    if n < 0 {
        out.push('-');
        let m: u64 = if n == i64::MIN {
            0x8000_0000_0000_0000
        } else {
            (-n) as u64
        };
        push_decimal(out, m);
        assert(out@ =~= old(out)@ + decimal_int(n as int));
    } else {
        push_decimal(out, n as u64);
    }
}

// ---------------------------------------------------------------------------
// Order and case
// ---------------------------------------------------------------------------

/// The ASCII lowercase of a character; other characters stay.
pub open spec fn ascii_lower(c: char) -> char {
    if 'A' <= c <= 'Z' {
        (c as u8 + 32) as char
    } else {
        c
    }
}

/// The ASCII uppercase of a character; other characters stay.
pub open spec fn ascii_upper(c: char) -> char {
    if 'a' <= c <= 'z' {
        (c as u8 - 32) as char
    } else {
        c
    }
}

/// The ASCII uppercase of a text.
pub open spec fn ascii_uppercase(s: Seq<char>) -> Seq<char> {
    s.map_values(|c: char| ascii_upper(c))
}

/// All characters are ASCII.
pub open spec fn all_ascii(s: Seq<char>) -> bool {
    forall|i: int| 0 <= i < s.len() ==> (#[trigger] s[i] as u32) < 0x80
}

/// Case does not count where both texts are in ASCII lowercase.
pub proof fn lemma_case_folds(s: Seq<char>)
    ensures
        ascii_lowercase(ascii_uppercase(s)) == ascii_lowercase(s),
{
    assert forall|i: int| 0 <= i < s.len() implies ascii_lower(ascii_upper(#[trigger] s[i]))
        == ascii_lower(s[i]) by {}
    assert(ascii_lowercase(ascii_uppercase(s)) =~= ascii_lowercase(s));
}

/// The ASCII lowercase of a text.
pub open spec fn ascii_lowercase(s: Seq<char>) -> Seq<char> {
    s.map_values(|c: char| ascii_lower(c))
}

/// The ASCII lowercase of a text.
pub fn to_ascii_lower(s: &str) -> (out: Vec<char>)
    ensures
        out@ == ascii_lowercase(s@),
{
    let a = chars_of(s);
    let mut out: Vec<char> = Vec::new();
    let mut i: usize = 0;
    while i < a.len()
        invariant
            i <= a@.len(),
            out@ == ascii_lowercase(a@.take(i as int)),
        decreases a@.len() - i,
    {
        let c = a[i];
        let low: char = if 'A' <= c && c <= 'Z' {
            (c as u8 + 32) as char
        } else {
            c
        };
        out.push(low);
        i += 1;
        assert(out@ =~= ascii_lowercase(a@.take(i as int)));
    }
    assert(a@.take(i as int) =~= a@);
    out
}

/// `a` comes before `b` in the order of strings: at the first place where
/// they differ `a` has the smaller character, or it ends there.
pub open spec fn text_less(a: Seq<char>, b: Seq<char>) -> bool
    decreases a.len(),
{
    if b.len() == 0 {
        false
    } else if a.len() == 0 {
        true
    } else if a[0] != b[0] {
        a[0] < b[0]
    } else {
        text_less(a.skip(1), b.skip(1))
    }
}

pub proof fn lemma_text_less_irreflexive(a: Seq<char>)
    ensures
        !text_less(a, a),
    decreases a.len(),
{
    if a.len() > 0 {
        lemma_text_less_irreflexive(a.skip(1));
    }
}

pub proof fn lemma_text_less_transitive(a: Seq<char>, b: Seq<char>, c: Seq<char>)
    requires
        text_less(a, b),
        text_less(b, c),
    ensures
        text_less(a, c),
    decreases a.len(),
{
    if a.len() > 0 && a[0] == b[0] && b[0] == c[0] {
        lemma_text_less_transitive(a.skip(1), b.skip(1), c.skip(1));
    }
}

pub proof fn lemma_text_less_total(a: Seq<char>, b: Seq<char>)
    ensures
        a == b || text_less(a, b) || text_less(b, a),
    decreases a.len(),
{
    if a.len() > 0 && b.len() > 0 && a[0] == b[0] {
        lemma_text_less_total(a.skip(1), b.skip(1));
        if a.skip(1) == b.skip(1) {
            assert(a =~= seq![a[0]] + a.skip(1));
            assert(b =~= seq![b[0]] + b.skip(1));
        }
    } else if a.len() == 0 && b.len() == 0 {
        assert(a =~= b);
    }
}

/// Whether `a` comes before `b` in the order of strings.
pub fn less(a: &str, b: &str) -> (r: bool)
    ensures
        r == text_less(a@, b@),
{
    let x = chars_of(a);
    let y = chars_of(b);
    let mut i: usize = 0;
    assert(x@.skip(0) =~= x@);
    assert(y@.skip(0) =~= y@);
    loop
        invariant
            i <= x@.len(),
            i <= y@.len(),
            text_less(x@.skip(i as int), y@.skip(i as int)) == text_less(a@, b@),
        decreases x@.len() - i,
    {
        if i == y.len() {
            return false;
        }
        if i == x.len() {
            return true;
        }
        if x[i] != y[i] {
            return x[i] < y[i];
        }
        proof {
            assert(x@.skip(i as int).skip(1) =~= x@.skip(i + 1));
            assert(y@.skip(i as int).skip(1) =~= y@.skip(i + 1));
        }
        i += 1;
    }
}

// ---------------------------------------------------------------------------
// Replacement
// ---------------------------------------------------------------------------

/// `s` with every occurrence of `from` replaced by `to`, searched from left to
/// right without overlaps, as `str::replace` does.
pub open spec fn replaced(s: Seq<char>, from: Seq<char>, to: Seq<char>) -> Seq<char>
    decreases s.len(),
{
    if s.len() == 0 || from.len() == 0 {
        s
    } else if begins(s, from) {
        to + replaced(s.skip(from.len() as int), from, to)
    } else {
        seq![s[0]] + replaced(s.skip(1), from, to)
    }
}

/// `s` with every occurrence of `from` replaced by `to`.
pub fn replace(s: &str, from: &str, to: &str) -> (out: String)
    requires
        from@.len() > 0,
    ensures
        out@ == replaced(s@, from@, to@),
{
    let a = chars_of(s);
    let f = chars_of(from);
    let mut out = String::new();
    let mut i: usize = 0;
    assert(a@.skip(0) =~= a@);
    assert(Seq::<char>::empty() + replaced(a@, from@, to@) =~= replaced(a@, from@, to@));
    while i < a.len()
        invariant
            i <= a@.len(),
            f@ == from@,
            from@.len() > 0,
            out@ + replaced(a@.skip(i as int), from@, to@) == replaced(s@, from@, to@),
        decreases a@.len() - i,
    {
        let ghost rest = a@.skip(i as int);
        if match_at(&a, &f, i) {
            proof {
                assert(rest.take(f@.len() as int) =~= a@.subrange(i as int, i + f@.len()));
                assert(rest.skip(f@.len() as int) =~= a@.skip(i + f@.len()));
                assert(out@ + (to@ + replaced(a@.skip(i + f@.len()), from@, to@)) =~= (out@ + to@)
                    + replaced(a@.skip(i + f@.len()), from@, to@));
            }
            out.append(to);
            i = i + f.len();
        } else {
            proof {
                if begins(rest, f@) {
                    assert(rest.take(f@.len() as int) =~= a@.subrange(i as int, i + f@.len()));
                }
                assert(rest.skip(1) =~= a@.skip(i + 1));
                assert(out@ + (seq![a@[i as int]] + replaced(a@.skip(i + 1), from@, to@)) =~= (
                out@.push(a@[i as int])) + replaced(a@.skip(i + 1), from@, to@));
            }
            out.push(a[i]);
            i += 1;
        }
    }
    assert(a@.skip(i as int) =~= Seq::<char>::empty());
    assert(out@ + replaced(Seq::<char>::empty(), from@, to@) =~= out@);
    out
}

/// All of the characters are white space.
pub open spec fn blank(s: Seq<char>) -> bool {
    forall|i: int| 0 <= i < s.len() ==> is_ws(#[trigger] s[i])
}

/// What is white space in ASCII: blanks, tabs, and what ends lines and pages.
pub proof fn law_ascii_white_space(c: char)
    ensures
        (c as u32) < 0x80 ==> (is_ws(c) <==> c == ' ' || c == '\t' || c == '\n' || c == '\r' || c
            as u32 == 0xb || c as u32 == 0xc),
{
}

/// Trimming takes off the white space at both ends, all of it, and nothing
/// else.
pub proof fn law_trimmed(front: Seq<char>, s: Seq<char>, back: Seq<char>)
    requires
        blank(front),
        blank(back),
        s.len() > 0 ==> !is_ws(s[0]) && !is_ws(s.last()),
    ensures
        trimmed(front + s + back) == s,
        s.len() > 0 ==> trimmed_start(front + s + back) == s + back,
    decreases front.len() + back.len(),
{
    let all = front + s + back;
    if front.len() > 0 {
        let rest = front.skip(1);
        assert forall|i: int| 0 <= i < rest.len() implies is_ws(#[trigger] rest[i]) by {
            assert(rest[i] == front[i + 1]);
        }
        assert(all[0] == front[0]);
        assert(all.skip(1) =~= rest + s + back);
        law_trimmed(rest, s, back);
    } else if s.len() > 0 {
        assert(all[0] == s[0]);
        assert(all =~= s + back);
        lemma_blank_end(s, back);
    } else {
        assert(all =~= back);
        lemma_blank_start(back);
    }
}

proof fn lemma_blank_end(s: Seq<char>, back: Seq<char>)
    requires
        blank(back),
        s.len() > 0 ==> !is_ws(s.last()),
    ensures
        trimmed_end(s + back) == s,
    decreases back.len(),
{
    let all = s + back;
    if back.len() > 0 {
        let rest = back.drop_last();
        assert forall|i: int| 0 <= i < rest.len() implies is_ws(#[trigger] rest[i]) by {
            assert(rest[i] == back[i]);
        }
        assert(all.last() == back[back.len() - 1]);
        assert(all.drop_last() =~= s + rest);
        lemma_blank_end(s, rest);
    } else {
        assert(all =~= s);
    }
}

proof fn lemma_blank_start(s: Seq<char>)
    requires
        blank(s),
    ensures
        trimmed_start(s) == Seq::<char>::empty(),
        trimmed(s) == Seq::<char>::empty(),
    decreases s.len(),
{
    if s.len() > 0 {
        let rest = s.skip(1);
        assert forall|i: int| 0 <= i < rest.len() implies is_ws(#[trigger] rest[i]) by {
            assert(rest[i] == s[i + 1]);
        }
        assert(is_ws(s[0]));
        lemma_blank_start(rest);
    } else {
        assert(s =~= Seq::<char>::empty());
    }
}

/// Nothing is left after trimming exactly where there was only white space.
pub proof fn law_trimmed_to_nothing(s: Seq<char>)
    ensures
        trimmed(s).len() == 0 <==> blank(s),
    decreases s.len(),
{
    if blank(s) {
        lemma_blank_start(s);
    } else {
        let i = choose|i: int| 0 <= i < s.len() && !is_ws(#[trigger] s[i]);
        if is_ws(s[0]) {
            let rest = s.skip(1);
            assert(rest[i - 1] == s[i]);
            law_trimmed_to_nothing(rest);
        } else {
            assert(trimmed_start(s) == s);
            lemma_end_keeps(s, 0);
        }
    }
}

proof fn lemma_end_keeps(s: Seq<char>, i: int)
    requires
        0 <= i < s.len(),
        !is_ws(s[i]),
    ensures
        trimmed_end(s).len() > i,
    decreases s.len(),
{
    if is_ws(s.last()) {
        assert(s.drop_last()[i] == s[i]);
        lemma_end_keeps(s.drop_last(), i);
    }
}

/// Texts are in the order of their first difference, and a text comes before
/// what it is the beginning of.
pub proof fn law_text_order(p: Seq<char>, a: char, s: Seq<char>, b: char, t: Seq<char>)
    ensures
        a != b ==> (text_less(p + seq![a] + s, p + seq![b] + t) <==> a < b),
        text_less(p, p + seq![b] + t),
        !text_less(p + seq![a] + s, p),
    decreases p.len(),
{
    let x = p + seq![a] + s;
    let y = p + seq![b] + t;
    if p.len() > 0 {
        let q = p.skip(1);
        law_text_order(q, a, s, b, t);
        assert(x.skip(1) =~= q + seq![a] + s);
        assert(y.skip(1) =~= q + seq![b] + t);
    } else {
        assert(x[0] == a && y[0] == b);
    }
}

/// One more digit makes ten times as much, and the digit.
pub proof fn law_one_more_digit(s: Seq<char>, d: nat, c: char, n: nat, max: nat)
    requires
        d <= 9,
        c as nat == '0' as nat + d,
        number(s, max) == Some(n),
    ensures
        10 * n + d <= max ==> number(s.push(c), max) == Some(10 * n + d),
        10 * n + d > max ==> number(s.push(c), max) is None,
        d <= max ==> number(seq![c], max) == Some(d),
{
    let u = unsigned_part(s);
    assert(unsigned_part(s.push(c)) =~= u.push(c));
    assert(u.push(c).drop_last() =~= u);
    assert forall|i: int| 0 <= i < u.push(c).len() implies is_digit(#[trigger] u.push(c)[i]) by {
        if i < u.len() {
            assert(is_digit(u[i]));
        }
    }
    let one = seq![c];
    assert(unsigned_part(one) =~= one);
    assert(one.drop_last() =~= Seq::<char>::empty());
    assert(value(Seq::<char>::empty()) == 0);
}

/// What holds anything but digits is no number, apart from a plus sign in front.
pub proof fn law_no_digit(s: Seq<char>, i: int, max: nat)
    requires
        0 <= i < s.len(),
        !('0' <= s[i] <= '9'),
        i > 0 || s[0] != '+',
    ensures
        number(s, max) is None,
{
    let u = unsigned_part(s);
    if number(s, max) is Some {
        if s[0] == '+' {
            assert(u[i - 1] == s[i]);
            assert(is_digit(u[i - 1]));
        } else {
            assert(is_digit(u[i]));
        }
    }
}

/// A text is taken line by line, whichever way its lines end.
pub proof fn law_lines(line: Seq<char>, rest: Seq<char>)
    requires
        !line.contains('\n'),
        line.len() > 0 ==> line.last() != '\r',
    ensures
        lines(line + seq!['\n'] + rest) == seq![line] + lines(rest),
        lines(line + seq!['\r', '\n'] + rest) == seq![line] + lines(rest),
        line.len() > 0 ==> lines(line) == seq![line],
        lines(Seq::<char>::empty()).len() == 0,
{
    let a = line + seq!['\n'] + rest;
    let b = line + seq!['\r', '\n'] + rest;
    let n = line.len() as int;
    assert forall|i: int| 0 <= i < n implies #[trigger] line[i] != '\n' by {
        assert(line.contains(line[i]));
    }
    assert forall|i: int| 0 <= i < n implies #[trigger] a[i] != '\n' by {
        assert(a[i] == line[i]);
    }
    assert forall|i: int| 0 <= i < n + 1 implies #[trigger] b[i] != '\n' by {
        if i < n {
            assert(b[i] == line[i]);
        }
    }
    lemma_before(line, '\n', n);
    lemma_before(a, '\n', n);
    lemma_before(b, '\n', n + 1);
    assert(a.take(n) =~= line);
    assert(a.skip(n + 1) =~= rest);
    let cr = b.take(n + 1);
    assert(cr.drop_last() =~= line);
    assert(cr.last() == '\r');
    assert(b.skip(n + 2) =~= rest);
}

/// A prefix, a suffix, and a part are found where they stand.
pub proof fn law_parts_found(a: Seq<char>, p: Seq<char>, b: Seq<char>)
    ensures
        begins(p + b, p),
        ends(a + p, p),
        occurs(a + p + b, p),
        without_prefix(p + b, p) == Some(b),
{
    assert((p + b).take(p.len() as int) =~= p);
    assert((p + b).skip(p.len() as int) =~= b);
    assert((a + p).skip(a.len() as int) =~= p);
    assert((a + p + b).subrange(a.len() as int, (a.len() + p.len()) as int) =~= p);
    assert(occurs_at(a + p + b, p, a.len() as int));
}

/// What holds a character that a text does not hold is no part of that text.
pub proof fn law_parts_not_found(s: Seq<char>, p: Seq<char>, i: int)
    requires
        0 <= i < p.len(),
        !s.contains(p[i]),
    ensures
        !begins(s, p),
        !ends(s, p),
        !occurs(s, p),
        without_prefix(s, p) is None,
        up_to(s, p) == s,
{
    if begins(s, p) {
        assert(s.take(p.len() as int)[i] == s[i]);
        assert(s.contains(s[i]));
    }
    if ends(s, p) {
        let n = s.len() - p.len();
        assert(s.skip(n)[i] == s[n + i]);
        assert(s.contains(s[n + i]));
    }
    if occurs(s, p) {
        let n = choose|n: int| occurs_at(s, p, n);
        assert(s.subrange(n, n + p.len())[i] == s[n + i]);
        assert(s.contains(s[n + i]));
    }
}

/// What takes two bytes or more: two characters, or one beyond ASCII.
pub proof fn law_two_bytes(s: Seq<char>)
    ensures
        byte_len(s) >= 2 <==> s.len() >= 2 || (s.len() == 1 && s[0] as u32 >= 0x80),
{
    lemma_byte_len(s);
    if s.len() == 1 {
        assert(s.drop_last() =~= Seq::<char>::empty());
        assert(byte_len(Seq::<char>::empty()) == 0);
    }
}

/// All of the characters in front that are to go are gone, and only those.
pub proof fn law_without_leading(n: nat, c: char, s: Seq<char>)
    requires
        s.len() > 0 ==> s[0] != c,
    ensures
        without_leading(Seq::new(n, |i: int| c) + s, c) == s,
    decreases n,
{
    let all = Seq::new(n, |i: int| c) + s;
    if n > 0 {
        law_without_leading((n - 1) as nat, c, s);
        assert(all.skip(1) =~= Seq::new((n - 1) as nat, |i: int| c) + s);
    } else {
        assert(all =~= s);
    }
}

/// What does not hold a part is not changed by replacing it, and an occurrence
/// behind such a text is replaced.
pub proof fn law_replaced(a: Seq<char>, from: Seq<char>, b: Seq<char>, to: Seq<char>)
    requires
        from.len() > 0,
        forall|i: int| 0 <= i < a.len() ==> !occurs_at(a + from + b, from, i),
    ensures
        replaced(a + from + b, from, to) == a + to + replaced(b, from, to),
    decreases a.len(),
{
    let s = a + from + b;
    if a.len() == 0 {
        assert(s.take(from.len() as int) =~= from);
        assert(s.skip(from.len() as int) =~= b);
        assert(a + to + replaced(b, from, to) =~= to + replaced(b, from, to));
    } else {
        let rest = a.skip(1);
        assert(!begins(s, from)) by {
            assert(!occurs_at(s, from, 0));
            assert(s.subrange(0, from.len() as int) =~= s.take(from.len() as int));
        }
        assert(s.skip(1) =~= rest + from + b);
        assert forall|i: int| 0 <= i < rest.len() implies !occurs_at(rest + from + b, from, i) by {
            assert(!occurs_at(s, from, i + 1));
            assert((rest + from + b).subrange(i, i + from.len()) =~= s.subrange(
                i + 1,
                i + 1 + from.len(),
            )) by {
                assert(s.len() == rest.len() + from.len() + b.len() + 1);
            }
        }
        law_replaced(rest, from, b, to);
        assert(seq![s[0]] + (rest + to + replaced(b, from, to)) =~= a + to + replaced(b, from, to));
    }
}

/// A text without an occurrence stays as it is.
pub proof fn law_not_replaced(s: Seq<char>, from: Seq<char>, to: Seq<char>)
    requires
        !occurs(s, from),
    ensures
        replaced(s, from, to) == s,
    decreases s.len(),
{
    if s.len() > 0 && from.len() > 0 {
        if begins(s, from) {
            assert(s.subrange(0, from.len() as int) =~= s.take(from.len() as int));
            assert(occurs_at(s, from, 0));
        }
        let rest = s.skip(1);
        if occurs(rest, from) {
            let i = choose|i: int| occurs_at(rest, from, i);
            assert(s.subrange(i + 1, i + 1 + from.len()) =~= rest.subrange(i, i + from.len()));
            assert(occurs_at(s, from, i + 1));
        }
        law_not_replaced(rest, from, to);
        assert(seq![s[0]] + rest =~= s);
    }
}

} // verus!

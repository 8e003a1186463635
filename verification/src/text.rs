//! Text primitives over sequences of characters.

use vstd::prelude::*;

verus! {

/// `String::push` of std appends one character.
pub assume_specification[ String::push ](s: &mut String, c: char)
    ensures
        final(s)@ == old(s)@.push(c),
;

/// The characters of `s`, in order.
pub fn chars_of(s: &str) -> (r: Vec<char>)
    ensures
        r@ == s@,
{
    let mut out: Vec<char> = Vec::new();
    for c in it: s.chars()
        invariant
            it.seq() == s@,
            out@ == it.seq().take(it.index()),
    {
        out.push(c);
    }
    out
}

/// The string that holds exactly `chars`.
pub fn string_of(chars: &[char]) -> (r: String)
    ensures
        r@ == chars@,
{
    let mut out = String::new();
    let n: usize = chars.len();
    for i in 0..n
        invariant
            n == chars@.len(),
            out@ == chars@.take(i as int),
    {
        out.push(chars[i]);
        assert(chars@.take(i + 1) == chars@.take(i as int).push(chars@[i as int]));
    }
    assert(chars@.take(n as int) == chars@);
    out
}

/// Whether the two texts hold the same characters.
pub fn same_text(a: &str, b: &str) -> (r: bool)
    ensures
        r == (a@ == b@),
{
    let x = chars_of(a);
    let y = chars_of(b);
    same_chars(x.as_slice(), y.as_slice())
}

pub fn same_chars(x: &[char], y: &[char]) -> (r: bool)
    ensures
        r == (x@ == y@),
{
    if x.len() != y.len() {
        return false;
    }
    let n: usize = x.len();
    for i in 0..n
        invariant
            n == x@.len(),
            n == y@.len(),
            x@.take(i as int) == y@.take(i as int),
    {
        if x[i] != y[i] {
            assert(x@[i as int] != y@[i as int]);
            return false;
        }
        assert(x@.take(i + 1) == x@.take(i as int).push(x@[i as int]));
        assert(y@.take(i + 1) == y@.take(i as int).push(y@[i as int]));
    }
    assert(x@.take(n as int) == x@);
    assert(y@.take(n as int) == y@);
    true
}

/// The characters with the White_Space property.
pub open spec fn whitespace(c: char) -> bool {
    ||| 0x09 <= c as u32 <= 0x0d
    ||| c as u32 == 0x20
    ||| c as u32 == 0x85
    ||| c as u32 == 0xa0
    ||| c as u32 == 0x1680
    ||| 0x2000 <= c as u32 <= 0x200a
    ||| c as u32 == 0x2028
    ||| c as u32 == 0x2029
    ||| c as u32 == 0x202f
    ||| c as u32 == 0x205f
    ||| c as u32 == 0x3000
}

pub fn is_whitespace(c: char) -> (r: bool)
    ensures
        r == whitespace(c),
{
    let n: u32 = c as u32;
    (0x09 <= n && n <= 0x0d) || n == 0x20 || n == 0x85 || n == 0xa0 || n == 0x1680 || (0x2000 <= n
        && n <= 0x200a) || n == 0x2028 || n == 0x2029 || n == 0x202f || n == 0x205f || n == 0x3000
}

/// The ASCII lower-case form of a character: `A` to `Z` change, nothing else does.
pub open spec fn ascii_lower(c: char) -> char {
    if 'A' <= c <= 'Z' {
        ((c as u32 + 32) as u32) as char
    } else {
        c
    }
}

pub fn to_ascii_lower(c: char) -> (r: char)
    ensures
        r == ascii_lower(c),
{
    if 'A' <= c && c <= 'Z' {
        ((c as u8) + 32u8) as char
    } else {
        c
    }
}

pub open spec fn utf8_len(s: Seq<char>) -> nat {
    vstd::utf8::encode_utf8(s).len()
}

pub fn byte_len(s: &str) -> (r: usize)
    ensures
        r == utf8_len(s@),
{
    s.as_bytes().len()
}


/// The texts that a list of strings holds.
pub open spec fn views(v: Seq<String>) -> Seq<Seq<char>> {
    Seq::new(v.len(), |i: int| v[i]@)
}

pub proof fn views_push(v: Seq<String>, s: String)
    ensures
        views(v.push(s)) == views(v).push(s@),
{
}

pub open spec fn trim_start(s: Seq<char>) -> Seq<char>
    decreases s.len(),
{
    if s.len() > 0 && whitespace(s[0]) {
        trim_start(s.drop_first())
    } else {
        s
    }
}

pub open spec fn trim_end(s: Seq<char>) -> Seq<char>
    decreases s.len(),
{
    if s.len() > 0 && whitespace(s.last()) {
        trim_end(s.drop_last())
    } else {
        s
    }
}

/// `s` without the white space at its two ends.
pub open spec fn trim(s: Seq<char>) -> Seq<char> {
    trim_end(trim_start(s))
}

pub fn trim_start_chars<'a>(s: &'a [char]) -> (r: &'a [char])
    ensures
        r@ == trim_start(s@),
{
    let n: usize = s.len();
    let mut i: usize = 0;
    assert(s@.skip(0) == s@);
    while i < n && is_whitespace(s[i])
        invariant
            n == s@.len(),
            i <= n,
            trim_start(s@) == trim_start(s@.skip(i as int)),
        decreases n - i,
    {
        assert(s@.skip(i as int).drop_first() == s@.skip(i + 1));
        i = i + 1;
    }
    let r = vstd::slice::slice_subrange(s, i, n);
    assert(r@ == s@.skip(i as int));
    r
}

pub fn trim_end_chars<'a>(s: &'a [char]) -> (r: &'a [char])
    ensures
        r@ == trim_end(s@),
{
    let mut j: usize = s.len();
    assert(s@.take(j as int) == s@);
    while j > 0 && is_whitespace(s[j - 1])
        invariant
            j <= s@.len(),
            trim_end(s@) == trim_end(s@.take(j as int)),
        decreases j,
    {
        assert(s@.take(j as int).drop_last() == s@.take(j - 1));
        j = j - 1;
    }
    let r = vstd::slice::slice_subrange(s, 0, j);
    assert(r@ == s@.take(j as int));
    r
}

pub fn trim_chars<'a>(s: &'a [char]) -> (r: &'a [char])
    ensures
        r@ == trim(s@),
{
    trim_end_chars(trim_start_chars(s))
}

pub fn trimmed(s: &str) -> (r: String)
    ensures
        r@ == trim(s@),
{
    let chars = chars_of(s);
    string_of(trim_chars(chars.as_slice()))
}

/// `p` stands in `s` at position `i`.
pub open spec fn occurs_at(s: Seq<char>, p: Seq<char>, i: int) -> bool {
    0 <= i <= s.len() - p.len() && s.subrange(i, i + p.len()) == p
}

/// `p` stands somewhere in `s`.
pub open spec fn contains(s: Seq<char>, p: Seq<char>) -> bool {
    exists|i: int| occurs_at(s, p, i)
}

pub open spec fn starts_with(s: Seq<char>, p: Seq<char>) -> bool {
    p.len() <= s.len() && s.take(p.len() as int) == p
}

pub open spec fn ends_with(s: Seq<char>, p: Seq<char>) -> bool {
    p.len() <= s.len() && s.skip(s.len() - p.len()) == p
}

fn occurs_here(s: &[char], p: &[char], i: usize) -> (r: bool)
    requires
        i + p@.len() <= s@.len(),
    ensures
        r == occurs_at(s@, p@, i as int),
{
    let n: usize = s.len();
    let part = vstd::slice::slice_subrange(s, i, i + p.len());
    same_chars(part, p)
}

pub fn starts_with_chars(s: &[char], p: &[char]) -> (r: bool)
    ensures
        r == starts_with(s@, p@),
{
    if p.len() > s.len() {
        return false;
    }
    assert(s@.subrange(0, p@.len() as int) == s@.take(p@.len() as int));
    occurs_here(s, p, 0)
}

pub fn ends_with_chars(s: &[char], p: &[char]) -> (r: bool)
    ensures
        r == ends_with(s@, p@),
{
    if p.len() > s.len() {
        return false;
    }
    let at: usize = s.len() - p.len();
    assert(s@.subrange(at as int, s@.len() as int) == s@.skip(at as int));
    occurs_here(s, p, at)
}

pub fn contains_chars(s: &[char], p: &[char]) -> (r: bool)
    ensures
        r == contains(s@, p@),
{
    if p.len() > s.len() {
        return false;
    }
    let last: usize = s.len() - p.len();
    let mut i: usize = 0;
    while i <= last
        invariant
            last == s@.len() - p@.len(),
            i <= last + 1,
            forall|k: int| 0 <= k < i ==> !occurs_at(s@, p@, k),
        decreases last + 1 - i,
    {
        if occurs_here(s, p, i) {
            return true;
        }
        if i == last {
            return false;
        }
        i = i + 1;
    }
    false
}

pub fn text_starts_with(s: &str, p: &str) -> (r: bool)
    ensures
        r == starts_with(s@, p@),
{
    starts_with_chars(chars_of(s).as_slice(), chars_of(p).as_slice())
}

pub fn text_ends_with(s: &str, p: &str) -> (r: bool)
    ensures
        r == ends_with(s@, p@),
{
    ends_with_chars(chars_of(s).as_slice(), chars_of(p).as_slice())
}

pub fn text_contains(s: &str, p: &str) -> (r: bool)
    ensures
        r == contains(s@, p@),
{
    contains_chars(chars_of(s).as_slice(), chars_of(p).as_slice())
}

/// What separates the pieces of a split text.
#[derive(Clone, Copy)]
pub enum Separator {
    Whitespace,
    NonAlphanumeric,
    Char(char),
}

/// What `char::is_alphanumeric` of std answers for a character beyond ASCII.
pub uninterp spec fn alphanumeric_beyond_ascii(c: char) -> bool;

pub open spec fn ascii_alphanumeric(c: char) -> bool {
    'a' <= c <= 'z' || 'A' <= c <= 'Z' || '0' <= c <= '9'
}

/// The letters and numbers among the characters, as Unicode classes them.
pub open spec fn alphanumeric(c: char) -> bool {
    if c as u32 <= 0x7f {
        ascii_alphanumeric(c)
    } else {
        alphanumeric_beyond_ascii(c)
    }
}

/// `char::is_alphanumeric` of std, alphabetic or numeric by Unicode: of ASCII the
/// letters and the digits; beyond ASCII a function of the character alone.
#[verifier::external_body]
pub(crate) fn is_alphanumeric(c: char) -> (r: bool)
    ensures
        r == (if c as u32 <= 0x7f {
            ascii_alphanumeric(c)
        } else {
            alphanumeric_beyond_ascii(c)
        }),
{
    c.is_alphanumeric()
}

/// Lower case keeps letters and numbers apart from the rest.
pub proof fn lower_keeps_class(c: char)
    ensures
        alphanumeric(ascii_lower(c)) == alphanumeric(c),
        whitespace(ascii_lower(c)) == whitespace(c),
        ascii_lower(ascii_lower(c)) == ascii_lower(c),
        !('A' <= ascii_lower(c) <= 'Z'),
{
}

pub open spec fn separates(by: Separator, c: char) -> bool {
    match by {
        Separator::Whitespace => whitespace(c),
        Separator::NonAlphanumeric => !alphanumeric(c),
        Separator::Char(x) => c == x,
    }
}

fn is_separator(by: Separator, c: char) -> (r: bool)
    ensures
        r == separates(by, c),
{
    match by {
        Separator::Whitespace => is_whitespace(c),
        Separator::NonAlphanumeric => !is_alphanumeric(c),
        Separator::Char(x) => c == x,
    }
}

/// The pieces of `s` between its separators, empty pieces included; one more
/// piece than separators.
pub open spec fn split(s: Seq<char>, by: Separator) -> Seq<Seq<char>>
    decreases s.len(),
{
    if s.len() == 0 {
        seq![Seq::empty()]
    } else {
        let before = split(s.drop_last(), by);
        if separates(by, s.last()) {
            before.push(Seq::empty())
        } else {
            before.drop_last().push(before.last().push(s.last()))
        }
    }
}

pub proof fn split_nonempty(s: Seq<char>, by: Separator)
    ensures
        split(s, by).len() > 0,
    decreases s.len(),
{
    if s.len() > 0 {
        split_nonempty(s.drop_last(), by);
    }
}

/// No character of `s` separates.
pub open spec fn unseparated(s: Seq<char>, by: Separator) -> bool {
    forall|i: int| 0 <= i < s.len() ==> !separates(by, #[trigger] s[i])
}

/// A text without separators is its only piece.
pub proof fn split_of_one(s: Seq<char>, by: Separator)
    requires
        unseparated(s, by),
    ensures
        split(s, by) == seq![s],
    decreases s.len(),
{
    if s.len() > 0 {
        let less = s.drop_last();
        assert forall|i: int| 0 <= i < less.len() implies !separates(by, #[trigger] less[i]) by {
            assert(less[i] == s[i]);
        }
        split_of_one(less, by);
        assert(!separates(by, s[s.len() - 1]));
        let before = split(less, by);
        assert(before.drop_last() =~= Seq::<Seq<char>>::empty());
        assert(before.last().push(s.last()) =~= s);
        assert(split(s, by) =~= seq![s]);
    } else {
        assert(s =~= Seq::<char>::empty());
    }
}

proof fn split_at_a_part(s: Seq<char>, c: char, part: Seq<char>, by: Separator)
    requires
        separates(by, c),
        unseparated(part, by),
    ensures
        split(s + seq![c] + part, by) == split(s, by).push(part),
    decreases part.len(),
{
    let whole = s + seq![c] + part;
    if part.len() == 0 {
        assert(whole.drop_last() =~= s);
        assert(whole.last() == c);
        assert(part =~= Seq::<char>::empty());
    } else {
        let less = part.drop_last();
        assert forall|i: int| 0 <= i < less.len() implies !separates(by, #[trigger] less[i]) by {
            assert(less[i] == part[i]);
        }
        split_at_a_part(s, c, less, by);
        assert(whole.drop_last() =~= s + seq![c] + less);
        assert(whole.last() == part[part.len() - 1]);
        let before = split(whole.drop_last(), by);
        let pieces = split(s, by);
        assert(before == pieces.push(less));
        assert(before.drop_last() =~= pieces);
        assert(before.last().push(part.last()) =~= part);
    }
}

/// Parts that were joined by a separator, and hold none, are split again.
pub proof fn split_of_joined(parts: Seq<Seq<char>>, c: char, by: Separator)
    requires
        parts.len() > 0,
        separates(by, c),
        forall|i: int| 0 <= i < parts.len() ==> unseparated(#[trigger] parts[i], by),
    ensures
        split(joined(parts, seq![c]), by) == parts,
    decreases parts.len(),
{
    assert(unseparated(parts[parts.len() - 1], by));
    if parts.len() == 1 {
        split_of_one(parts[0], by);
        assert(parts =~= seq![parts[0]]);
    } else {
        let less = parts.drop_last();
        assert forall|i: int| 0 <= i < less.len() implies unseparated(#[trigger] less[i], by) by {
            assert(less[i] == parts[i]);
        }
        split_of_joined(less, c, by);
        split_at_a_part(joined(less, seq![c]), c, parts.last(), by);
        assert(less.push(parts.last()) =~= parts);
    }
}

/// No piece holds a separator.
pub proof fn pieces_are_unseparated(s: Seq<char>, by: Separator)
    ensures
        split(s, by).len() > 0,
        forall|i: int|
            0 <= i < split(s, by).len() ==> unseparated(#[trigger] split(s, by)[i], by),
    decreases s.len(),
{
    let pieces = split(s, by);
    if s.len() > 0 {
        pieces_are_unseparated(s.drop_last(), by);
        let before = split(s.drop_last(), by);
        assert forall|i: int| 0 <= i < pieces.len() implies unseparated(
            #[trigger] pieces[i],
            by,
        ) by {
            if i < before.len() - 1 || (i < before.len() && separates(by, s.last())) {
                assert(pieces[i] == before[i]);
            } else if !separates(by, s.last()) {
                let grown = before.last().push(s.last());
                assert(unseparated(before[before.len() - 1], by));
                assert(pieces[i] == grown);
                assert forall|k: int| 0 <= k < grown.len() implies !separates(
                    by,
                    #[trigger] grown[k],
                ) by {
                    if k < before.last().len() {
                        assert(grown[k] == before.last()[k]);
                    }
                }
            }
        }
    }
}

pub fn split_chars(s: &[char], by: Separator) -> (r: Vec<String>)
    ensures
        views(r@) == split(s@, by),
{
    let mut pieces: Vec<String> = Vec::new();
    let mut current = String::new();
    let n: usize = s.len();
    assert(s@.take(0) == Seq::<char>::empty());
    assert(views(pieces@).push(current@) == split(s@.take(0), by));
    for i in 0..n
        invariant
            n == s@.len(),
            views(pieces@).push(current@) == split(s@.take(i as int), by),
    {
        let ghost before = split(s@.take(i as int), by);
        assert(s@.take(i + 1).drop_last() == s@.take(i as int));
        assert(before.drop_last() == views(pieces@));
        assert(before.last() == current@);
        if is_separator(by, s[i]) {
            let mut done = String::new();
            std::mem::swap(&mut done, &mut current);
            proof {
                views_push(pieces@, done);
            }
            pieces.push(done);
        } else {
            current.push(s[i]);
        }
    }
    assert(s@.take(n as int) == s@);
    proof {
        views_push(pieces@, current);
    }
    pieces.push(current);
    pieces
}

/// The pieces of `pieces` that are not empty, in order.
pub open spec fn nonempty(pieces: Seq<Seq<char>>) -> Seq<Seq<char>> {
    pieces.filter(|p: Seq<char>| p.len() > 0)
}

/// The words of `s`: its pieces between white space.
pub open spec fn words(s: Seq<char>) -> Seq<Seq<char>> {
    nonempty(split(s, Separator::Whitespace))
}

/// The pieces that are not empty.
pub fn keep_nonempty(pieces: &Vec<String>) -> (r: Vec<String>)
    ensures
        views(r@) == nonempty(views(pieces@)),
{
    let mut out: Vec<String> = Vec::new();
    let n: usize = pieces.len();
    let ghost keep = |p: Seq<char>| p.len() > 0;
    assert(views(pieces@).take(0).filter(keep) == views(out@)) by {
        reveal(Seq::filter);
    }
    for i in 0..n
        invariant
            n == pieces@.len(),
            keep == (|p: Seq<char>| p.len() > 0),
            views(out@) == views(pieces@).take(i as int).filter(keep),
    {
        let ghost all = views(pieces@);
        assert(all.take(i + 1).drop_last() == all.take(i as int));
        reveal(Seq::filter);
        if !pieces[i].as_str().is_empty() {
            proof {
                views_push(out@, pieces@[i as int]);
            }
            out.push(pieces[i].clone());
        }
    }
    assert(views(pieces@).take(n as int) == views(pieces@));
    out
}

pub fn words_of(s: &str) -> (r: Vec<String>)
    ensures
        views(r@) == words(s@),
{
    keep_nonempty(&split_chars(chars_of(s).as_slice(), Separator::Whitespace))
}

/// A copy of a list of texts.
pub fn copy_list(list: &[String]) -> (r: Vec<String>)
    ensures
        r@ == list@,
{
    let mut out: Vec<String> = Vec::new();
    let n: usize = list.len();
    for i in 0..n
        invariant
            n == list@.len(),
            out@ == list@.take(i as int),
    {
        out.push(list[i].clone());
        assert(list@.take(i + 1) == list@.take(i as int).push(list@[i as int]));
    }
    assert(list@.take(n as int) == list@);
    out
}

/// The parts one after another, with `sep` between neighbours.
pub open spec fn joined(parts: Seq<Seq<char>>, sep: Seq<char>) -> Seq<char>
    decreases parts.len(),
{
    if parts.len() == 0 {
        Seq::empty()
    } else if parts.len() == 1 {
        parts[0]
    } else {
        joined(parts.drop_last(), sep) + sep + parts.last()
    }
}

pub fn join(parts: &[String], sep: &str) -> (r: String)
    ensures
        r@ == joined(views(parts@), sep@),
{
    let mut out = String::new();
    let n: usize = parts.len();
    for i in 0..n
        invariant
            n == parts@.len(),
            out@ == joined(views(parts@).take(i as int), sep@),
    {
        let ghost all = views(parts@);
        assert(all.take(i + 1).drop_last() == all.take(i as int));
        if i > 0 {
            out.append(sep);
        }
        out.append(parts[i].as_str());
        assert(out@ == joined(all.take(i + 1), sep@)) by {
            if i == 0 {
                assert(all.take(0) == Seq::<Seq<char>>::empty());
                assert(Seq::<char>::empty() + all[0] == all[0]);
            }
        }
    }
    assert(views(parts@).take(n as int) == views(parts@));
    out
}

/// Lexicographic order by code point, which is the byte order of the UTF-8
/// encodings.
pub open spec fn lex_lt(a: Seq<char>, b: Seq<char>) -> bool
    decreases a.len(),
{
    if b.len() == 0 {
        false
    } else if a.len() == 0 {
        true
    } else {
        a[0] < b[0] || (a[0] == b[0] && lex_lt(a.drop_first(), b.drop_first()))
    }
}

pub proof fn lex_lt_transitive(a: Seq<char>, b: Seq<char>, c: Seq<char>)
    requires
        lex_lt(a, b),
        lex_lt(b, c),
    ensures
        lex_lt(a, c),
    decreases a.len(),
{
    if a.len() > 0 && a[0] == b[0] && b[0] == c[0] {
        lex_lt_transitive(a.drop_first(), b.drop_first(), c.drop_first());
    }
}

pub proof fn lex_lt_irreflexive(a: Seq<char>)
    ensures
        !lex_lt(a, a),
    decreases a.len(),
{
    if a.len() > 0 {
        lex_lt_irreflexive(a.drop_first());
    }
}

pub proof fn lex_lt_total(a: Seq<char>, b: Seq<char>)
    ensures
        lex_lt(a, b) || a == b || lex_lt(b, a),
    decreases a.len(),
{
    if a.len() > 0 && b.len() > 0 {
        lex_lt_total(a.drop_first(), b.drop_first());
        if a.drop_first() == b.drop_first() && a[0] == b[0] {
            assert(a == seq![a[0]] + a.drop_first());
            assert(b == seq![b[0]] + b.drop_first());
        }
    } else if a.len() == 0 && b.len() == 0 {
        assert(a == b);
    }
}

pub fn text_before(a: &str, b: &str) -> (r: bool)
    ensures
        r == lex_lt(a@, b@),
{
    let x = chars_of(a);
    let y = chars_of(b);
    let mut i: usize = 0;
    assert(x@.skip(0) == x@);
    assert(y@.skip(0) == y@);
    while i < x.len() && i < y.len()
        invariant
            i <= x@.len(),
            i <= y@.len(),
            x@ == a@,
            y@ == b@,
            lex_lt(x@, y@) == lex_lt(x@.skip(i as int), y@.skip(i as int)),
        decreases x.len() - i,
    {
        if x[i] < y[i] {
            return true;
        }
        if x[i] > y[i] {
            return false;
        }
        assert(x@.skip(i as int).drop_first() == x@.skip(i + 1));
        assert(y@.skip(i as int).drop_first() == y@.skip(i + 1));
        i = i + 1;
    }
    i < y.len()
}

/// The decimal numeral of `n`.
pub open spec fn decimal(n: nat) -> Seq<char>
    decreases n,
{
    if n < 10 {
        seq![digit(n)]
    } else {
        decimal(n / 10).push(digit(n % 10))
    }
}

pub open spec fn digit(n: nat) -> char {
    ((48 + n) as u32) as char
}

pub fn decimal_of(n: u128) -> (r: String)
    ensures
        r@ == decimal(n as nat),
    decreases n,
{
    let last: char = (48u8 + (n % 10) as u8) as char;
    if n < 10 {
        let mut out = String::new();
        out.push(last);
        assert(out@ == seq![digit(n as nat)]);
        out
    } else {
        let mut out = decimal_of(n / 10);
        out.push(last);
        out
    }
}

/// At most the first `n` characters of `s`.
pub open spec fn take_at_most(s: Seq<char>, n: nat) -> Seq<char> {
    if s.len() <= n {
        s
    } else {
        s.take(n as int)
    }
}

pub fn take_chars<'a>(s: &'a [char], n: usize) -> (r: &'a [char])
    ensures
        r@ == take_at_most(s@, n as nat),
{
    if s.len() <= n {
        s
    } else {
        let r = vstd::slice::slice_subrange(s, 0, n);
        assert(r@ == s@.take(n as int));
        r
    }
}

pub fn text_take(s: &str, n: usize) -> (r: String)
    ensures
        r@ == take_at_most(s@, n as nat),
{
    string_of(take_chars(chars_of(s).as_slice(), n))
}

pub open spec fn opt_view(s: Option<String>) -> Option<Seq<char>> {
    match s {
        Some(x) => Some(x@),
        None => None,
    }
}

pub open spec fn without_cr(s: Seq<char>) -> Seq<char> {
    if s.len() > 0 && s.last() == '\r' {
        s.drop_last()
    } else {
        s
    }
}

/// The lines of `s`. A line ends with a line feed or with a carriage return and
/// a line feed; the last one may end without.
pub open spec fn lines(s: Seq<char>) -> Seq<Seq<char>> {
    let pieces = split(s, Separator::Char('\n'));
    let ended = pieces.drop_last().map_values(|p: Seq<char>| without_cr(p));
    if pieces.last().len() == 0 {
        ended
    } else {
        ended.push(pieces.last())
    }
}

fn cut_cr(s: &str) -> (r: String)
    ensures
        r@ == without_cr(s@),
{
    let chars = chars_of(s);
    let n: usize = chars.len();
    if n > 0 && chars[n - 1] == '\r' {
        let part = vstd::slice::slice_subrange(chars.as_slice(), 0, n - 1);
        assert(part@ == s@.drop_last());
        string_of(part)
    } else {
        string_of(chars.as_slice())
    }
}

pub fn lines_of(s: &str) -> (r: Vec<String>)
    ensures
        views(r@) == lines(s@),
{
    let pieces = split_chars(chars_of(s).as_slice(), Separator::Char('\n'));
    let ghost all = split(s@, Separator::Char('\n'));
    proof {
        split_nonempty(s@, Separator::Char('\n'));
    }
    let n: usize = pieces.len();
    let mut out: Vec<String> = Vec::new();
    let ghost ended = all.drop_last().map_values(|p: Seq<char>| without_cr(p));
    for i in 0..n - 1
        invariant
            n == pieces@.len(),
            n > 0,
            all == views(pieces@),
            ended == all.drop_last().map_values(|p: Seq<char>| without_cr(p)),
            views(out@) == ended.take(i as int),
    {
        let line = cut_cr(pieces[i].as_str());
        assert(ended[i as int] == line@);
        proof {
            views_push(out@, line);
        }
        out.push(line);
        assert(ended.take(i + 1) == ended.take(i as int).push(ended[i as int]));
    }
    assert(ended.take(n - 1) == ended);
    assert(all.last() == pieces@[n - 1]@);
    if !pieces[n - 1].as_str().is_empty() {
        proof {
            views_push(out@, pieces@[n - 1]);
        }
        out.push(pieces[n - 1].clone());
    }
    out
}

/// `s` without the repetitions of `p` at its start.
pub open spec fn strip_start(s: Seq<char>, p: Seq<char>) -> Seq<char>
    decreases s.len(),
{
    if p.len() > 0 && starts_with(s, p) {
        strip_start(s.skip(p.len() as int), p)
    } else {
        s
    }
}

/// `s` without the repetitions of `p` at its end.
pub open spec fn strip_end(s: Seq<char>, p: Seq<char>) -> Seq<char>
    decreases s.len(),
{
    if p.len() > 0 && ends_with(s, p) {
        strip_end(s.take(s.len() - p.len()), p)
    } else {
        s
    }
}

pub fn strip_start_chars<'a>(s: &'a [char], p: &[char]) -> (r: &'a [char])
    ensures
        r@ == strip_start(s@, p@),
{
    let mut rest: &'a [char] = s;
    while p.len() > 0 && starts_with_chars(rest, p)
        invariant
            strip_start(s@, p@) == strip_start(rest@, p@),
        decreases rest@.len(),
    {
        let n: usize = rest.len();
        let next = vstd::slice::slice_subrange(rest, p.len(), n);
        assert(next@ == rest@.skip(p@.len() as int));
        rest = next;
    }
    rest
}

pub fn strip_end_chars<'a>(s: &'a [char], p: &[char]) -> (r: &'a [char])
    ensures
        r@ == strip_end(s@, p@),
{
    let mut rest: &'a [char] = s;
    while p.len() > 0 && ends_with_chars(rest, p)
        invariant
            strip_end(s@, p@) == strip_end(rest@, p@),
        decreases rest@.len(),
    {
        let n: usize = rest.len();
        let next = vstd::slice::slice_subrange(rest, 0, n - p.len());
        assert(next@ == rest@.take(rest@.len() - p@.len()));
        rest = next;
    }
    rest
}

/// `s` with `to` in place of every `from`, read from the left.
pub open spec fn replaced(s: Seq<char>, from: Seq<char>, to: Seq<char>) -> Seq<char>
    decreases s.len(),
{
    if from.len() == 0 || s.len() == 0 {
        s
    } else if starts_with(s, from) {
        to + replaced(s.skip(from.len() as int), from, to)
    } else {
        seq![s[0]] + replaced(s.drop_first(), from, to)
    }
}

pub fn replace_chars(s: &[char], from: &str, to: &str) -> (r: String)
    requires
        from@.len() > 0,
    ensures
        r@ == replaced(s@, from@, to@),
{
    let pattern = chars_of(from);
    let mut rest: &[char] = s;
    let mut out = String::new();
    assert(out@ + replaced(s@, from@, to@) == replaced(s@, from@, to@));
    while rest.len() > 0
        invariant
            pattern@ == from@,
            from@.len() > 0,
            out@ + replaced(rest@, from@, to@) == replaced(s@, from@, to@),
        decreases rest@.len(),
    {
        let n: usize = rest.len();
        let ghost before = out@;
        let ghost tail = rest@;
        if starts_with_chars(rest, pattern.as_slice()) {
            out.append(to);
            let next = vstd::slice::slice_subrange(rest, pattern.len(), n);
            assert(next@ == rest@.skip(from@.len() as int));
            rest = next;
            assert(out@ + replaced(rest@, from@, to@) == before + (to@ + replaced(
                rest@,
                from@,
                to@,
            )));
        } else {
            out.push(rest[0]);
            let next = vstd::slice::slice_subrange(rest, 1, n);
            assert(next@ == rest@.drop_first());
            rest = next;
            assert(out@ + replaced(rest@, from@, to@) == before + (seq![tail[0]] + replaced(
                rest@,
                from@,
                to@,
            )));
        }
    }
    assert(out@ + rest@ == out@);
    out
}

/// The first position of `c` in `s`.
pub open spec fn first_index(s: Seq<char>, c: char) -> Option<int>
    decreases s.len(),
{
    if s.len() == 0 {
        None
    } else {
        match first_index(s.drop_last(), c) {
            Some(i) => Some(i),
            None => if s.last() == c {
                Some(s.len() - 1)
            } else {
                None
            },
        }
    }
}

/// The last position of `c` in `s`.
pub open spec fn last_index(s: Seq<char>, c: char) -> Option<int>
    decreases s.len(),
{
    if s.len() == 0 {
        None
    } else if s.last() == c {
        Some(s.len() - 1)
    } else {
        last_index(s.drop_last(), c)
    }
}

pub fn find_first(s: &[char], c: char) -> (r: Option<usize>)
    ensures
        match r {
            Some(i) => i < s@.len() && first_index(s@, c) == Some(i as int),
            None => first_index(s@, c) is None,
        },
{
    let mut found: Option<usize> = None;
    let n: usize = s.len();
    for i in 0..n
        invariant
            n == s@.len(),
            match found {
                Some(k) => k < i && first_index(s@.take(i as int), c) == Some(k as int),
                None => first_index(s@.take(i as int), c) is None,
            },
    {
        assert(s@.take(i + 1).drop_last() == s@.take(i as int));
        if found.is_none() && s[i] == c {
            found = Some(i);
        }
    }
    assert(s@.take(n as int) == s@);
    found
}

pub fn find_last(s: &[char], c: char) -> (r: Option<usize>)
    ensures
        match r {
            Some(i) => i < s@.len() && last_index(s@, c) == Some(i as int),
            None => last_index(s@, c) is None,
        },
{
    let mut found: Option<usize> = None;
    let n: usize = s.len();
    for i in 0..n
        invariant
            n == s@.len(),
            match found {
                Some(k) => k < i && last_index(s@.take(i as int), c) == Some(k as int),
                None => last_index(s@.take(i as int), c) is None,
            },
    {
        assert(s@.take(i + 1).drop_last() == s@.take(i as int));
        if s[i] == c {
            found = Some(i);
        }
    }
    assert(s@.take(n as int) == s@);
    found
}

/// `s` in lower case, as `str::to_lowercase` of std writes it.
pub uninterp spec fn lowercase(s: Seq<char>) -> Seq<char>;

/// `str::to_lowercase` of std: a function of the text alone.
#[verifier::external_body]
pub(crate) fn to_lowercase(s: &str) -> (r: String)
    ensures
        r@ == lowercase(s@),
{
    s.to_lowercase()
}

/// `s` in upper case, as `str::to_uppercase` of std writes it.
pub uninterp spec fn uppercase(s: Seq<char>) -> Seq<char>;

/// `str::to_uppercase` of std: a function of the text alone.
#[verifier::external_body]
pub(crate) fn to_uppercase(s: &str) -> (r: String)
    ensures
        r@ == uppercase(s@),
{
    s.to_uppercase()
}

/// `s` with its ASCII letters in lower case.
pub open spec fn lowered(s: Seq<char>) -> Seq<char> {
    s.map_values(|c: char| ascii_lower(c))
}

pub fn to_lowered(s: &str) -> (r: String)
    ensures
        r@ == lowered(s@),
{
    let chars = chars_of(s);
    let mut out = String::new();
    let n: usize = chars.len();
    for i in 0..n
        invariant
            n == chars@.len(),
            out@ == lowered(chars@.take(i as int)),
    {
        out.push(to_ascii_lower(chars[i]));
        assert(lowered(chars@.take(i + 1)) == lowered(chars@.take(i as int)).push(
            ascii_lower(chars@[i as int]),
        ));
    }
    assert(chars@.take(n as int) == chars@);
    out
}

proof fn trim_start_front(s: Seq<char>)
    ensures
        trim_start(s).len() > 0 ==> !whitespace(trim_start(s)[0]),
        trim_start(s).len() <= s.len(),
    decreases s.len(),
{
    if s.len() > 0 && whitespace(s[0]) {
        trim_start_front(s.drop_first());
    }
}

proof fn trim_end_back(s: Seq<char>)
    ensures
        trim_end(s).len() > 0 ==> !whitespace(trim_end(s).last()) && trim_end(s)[0] == s[0],
        trim_end(s).len() <= s.len(),
    decreases s.len(),
{
    if s.len() > 0 && whitespace(s.last()) {
        trim_end_back(s.drop_last());
    }
}

/// Nothing is left to trim at the ends of a trimmed text.
pub proof fn trim_leaves_no_blank_ends(s: Seq<char>)
    ensures
        trim(s).len() <= s.len(),
        trim(s).len() > 0 ==> !whitespace(trim(s)[0]) && !whitespace(trim(s).last()),
{
    trim_start_front(s);
    trim_end_back(trim_start(s));
}

/// Trimming a trimmed text changes nothing.
pub proof fn trim_idempotent(s: Seq<char>)
    ensures
        trim(trim(s)) == trim(s),
{
    trim_leaves_no_blank_ends(s);
}

proof fn trim_start_is_part(s: Seq<char>)
    ensures
        trim_start(s).len() <= s.len(),
        trim_start(s) == s.skip(s.len() - trim_start(s).len()),
    decreases s.len(),
{
    if s.len() > 0 && whitespace(s[0]) {
        trim_start_is_part(s.drop_first());
    }
}

proof fn trim_end_is_part(s: Seq<char>)
    ensures
        trim_end(s).len() <= s.len(),
        trim_end(s) == s.take(trim_end(s).len() as int),
    decreases s.len(),
{
    if s.len() > 0 && whitespace(s.last()) {
        trim_end_is_part(s.drop_last());
    }
}

/// A trimmed text is a part of the text.
pub proof fn trim_is_part(s: Seq<char>)
    ensures
        exists|from: int|
            0 <= from <= s.len() - trim(s).len() && #[trigger] s.subrange(
                from,
                from + trim(s).len(),
            ) == trim(s),
{
    trim_start_is_part(s);
    trim_end_is_part(trim_start(s));
    let from = s.len() - trim_start(s).len();
    assert(s.subrange(from, from + trim(s).len()) == trim(s));
}

// Parts of a text

/// The middle of three texts occurs in the text that they make up.
pub proof fn middle_occurs(a: Seq<char>, b: Seq<char>, c: Seq<char>)
    ensures
        contains(a + b + c, b),
{
    let whole = a + b + c;
    assert(whole.subrange(a.len() as int, (a.len() + b.len()) as int) =~= b);
    assert(occurs_at(whole, b, a.len() as int));
}

/// What occurs in a text occurs in every text that holds it.
pub proof fn occurs_in_more(a: Seq<char>, b: Seq<char>, c: Seq<char>, p: Seq<char>)
    requires
        contains(b, p),
    ensures
        contains(a + b + c, p),
{
    let i = choose|i: int| occurs_at(b, p, i);
    let whole = a + b + c;
    assert(b.subrange(i, i + p.len()) =~= p);
    assert(whole.subrange(a.len() + i, a.len() + i + p.len()) =~= p);
    assert(occurs_at(whole, p, a.len() + i));
}

/// Every part occurs in the text that joins the parts.
pub proof fn joined_holds_its_parts(parts: Seq<Seq<char>>, sep: Seq<char>, i: int)
    requires
        0 <= i < parts.len(),
    ensures
        contains(joined(parts, sep), parts[i]),
    decreases parts.len(),
{
    let none = Seq::<char>::empty();
    if parts.len() == 1 {
        middle_occurs(none, parts[0], none);
        assert(none + parts[0] + none =~= parts[0]);
    } else {
        let less = parts.drop_last();
        let front = joined(less, sep);
        if i == parts.len() - 1 {
            middle_occurs(front + sep, parts.last(), none);
            assert(front + sep + parts.last() + none =~= joined(parts, sep));
        } else {
            joined_holds_its_parts(less, sep, i);
            assert(less[i] == parts[i]);
            occurs_in_more(none, front, sep + parts.last(), parts[i]);
            assert(none + front + (sep + parts.last()) =~= joined(parts, sep));
        }
    }
}

/// Joined parts take the characters of the parts and of the separators between
/// them.
pub proof fn joined_takes_nothing_away(parts: Seq<Seq<char>>, more: Seq<char>, sep: Seq<char>)
    ensures
        joined(parts.push(more), sep) == if parts.len() == 0 {
            more
        } else {
            joined(parts, sep) + sep + more
        },
{
    assert(parts.push(more).drop_last() =~= parts);
}

proof fn trim_start_of_padded(a: Seq<char>, m: Seq<char>)
    requires
        forall|i: int| 0 <= i < a.len() ==> whitespace(#[trigger] a[i]),
        m.len() > 0,
        !whitespace(m[0]),
    ensures
        trim_start(a + m) == m,
    decreases a.len(),
{
    if a.len() > 0 {
        let rest = a.drop_first();
        assert forall|i: int| 0 <= i < rest.len() implies whitespace(#[trigger] rest[i]) by {
            assert(rest[i] == a[i + 1]);
        }
        trim_start_of_padded(rest, m);
        assert((a + m).drop_first() =~= rest + m);
        assert((a + m)[0] == a[0]);
    } else {
        assert(a + m =~= m);
    }
}

proof fn trim_end_of_padded(m: Seq<char>, b: Seq<char>)
    requires
        forall|i: int| 0 <= i < b.len() ==> whitespace(#[trigger] b[i]),
        m.len() > 0,
        !whitespace(m.last()),
    ensures
        trim_end(m + b) == m,
    decreases b.len(),
{
    if b.len() > 0 {
        let less = b.drop_last();
        assert forall|i: int| 0 <= i < less.len() implies whitespace(#[trigger] less[i]) by {
            assert(less[i] == b[i]);
        }
        trim_end_of_padded(m, less);
        assert((m + b).drop_last() =~= m + less);
        assert((m + b).last() == b[b.len() - 1]);
    } else {
        assert(m + b =~= m);
    }
}

/// White space around a text whose ends are none is what trimming takes away.
pub proof fn trim_of_padded(a: Seq<char>, m: Seq<char>, b: Seq<char>)
    requires
        forall|i: int| 0 <= i < a.len() ==> whitespace(#[trigger] a[i]),
        forall|i: int| 0 <= i < b.len() ==> whitespace(#[trigger] b[i]),
        m.len() > 0,
        !whitespace(m[0]),
        !whitespace(m.last()),
    ensures
        trim(a + m + b) == m,
{
    assert(a + m + b =~= a + (m + b));
    trim_start_of_padded(a, m + b);
    trim_end_of_padded(m, b);
}

/// Where a character first stands: behind it the text may hold it again, before
/// it the text does not.
pub proof fn first_index_is_first(s: Seq<char>, c: char)
    ensures
        match first_index(s, c) {
            Some(k) => 0 <= k < s.len() && s[k] == c && forall|i: int|
                0 <= i < k ==> #[trigger] s[i] != c,
            None => forall|i: int| 0 <= i < s.len() ==> #[trigger] s[i] != c,
        },
    decreases s.len(),
{
    if s.len() > 0 {
        let less = s.drop_last();
        first_index_is_first(less, c);
        assert forall|i: int| 0 <= i < less.len() implies #[trigger] s[i] == less[i] by {}
    }
}

/// Where a character last stands: before it the text may hold it too, behind it
/// the text does not.
pub proof fn last_index_is_last(s: Seq<char>, c: char)
    ensures
        match last_index(s, c) {
            Some(k) => 0 <= k < s.len() && s[k] == c && forall|i: int|
                k < i < s.len() ==> #[trigger] s[i] != c,
            None => forall|i: int| 0 <= i < s.len() ==> #[trigger] s[i] != c,
        },
    decreases s.len(),
{
    if s.len() > 0 {
        let less = s.drop_last();
        last_index_is_last(less, c);
        assert forall|i: int| 0 <= i < less.len() implies #[trigger] s[i] == less[i] by {}
    }
}

/// A text in which nothing is to be replaced stays as it is.
pub proof fn nothing_to_replace(s: Seq<char>, from: Seq<char>, to: Seq<char>)
    requires
        from.len() > 0,
        forall|i: int| 0 <= i < s.len() ==> #[trigger] s[i] != from[0],
    ensures
        replaced(s, from, to) == s,
    decreases s.len(),
{
    if s.len() > 0 {
        if starts_with(s, from) {
            assert(s.take(from.len() as int)[0] == s[0]);
        }
        let rest = s.drop_first();
        assert forall|i: int| 0 <= i < rest.len() implies #[trigger] rest[i] != from[0] by {
            assert(rest[i] == s[i + 1]);
        }
        nothing_to_replace(rest, from, to);
        assert(seq![s[0]] + rest =~= s);
    }
}

/// What is to be replaced is replaced behind a text that has nothing of it, and
/// what follows is gone through in the same way.
pub proof fn what_is_found_is_replaced(
    a: Seq<char>,
    from: Seq<char>,
    b: Seq<char>,
    to: Seq<char>,
)
    requires
        from.len() > 0,
        forall|i: int| 0 <= i < a.len() ==> #[trigger] a[i] != from[0],
    ensures
        replaced(a + from + b, from, to) == a + to + replaced(b, from, to),
    decreases a.len(),
{
    let s = a + from + b;
    if a.len() == 0 {
        assert(s.take(from.len() as int) =~= from);
        assert(s.skip(from.len() as int) =~= b);
        assert(a + to =~= to);
    } else {
        let rest = a.drop_first();
        assert(s[0] == a[0]);
        if starts_with(s, from) {
            assert(s.take(from.len() as int)[0] == s[0]);
        }
        assert forall|i: int| 0 <= i < rest.len() implies #[trigger] rest[i] != from[0] by {
            assert(rest[i] == a[i + 1]);
        }
        what_is_found_is_replaced(rest, from, b, to);
        assert(s.drop_first() =~= rest + from + b);
        assert(seq![s[0]] + (rest + to + replaced(b, from, to)) =~= a + to + replaced(
            b,
            from,
            to,
        ));
    }
}

/// Parts that all say something are all left.
pub proof fn nonempty_parts_stay(parts: Seq<Seq<char>>)
    requires
        forall|i: int| 0 <= i < parts.len() ==> (#[trigger] parts[i]).len() > 0,
    ensures
        nonempty(parts) == parts,
    decreases parts.len(),
{
    reveal(Seq::filter);
    if parts.len() > 0 {
        let less = parts.drop_last();
        assert forall|i: int| 0 <= i < less.len() implies (#[trigger] less[i]).len() > 0 by {
            assert(less[i] == parts[i]);
        }
        nonempty_parts_stay(less);
        assert(parts[parts.len() - 1].len() > 0);
        assert(parts == less.push(parts.last()));
    } else {
        assert(nonempty(parts) =~= parts);
    }
}

/// A part before a separator is the first piece, and what follows is split in
/// the same way.
pub proof fn split_behind_a_part(part: Seq<char>, c: char, s: Seq<char>, by: Separator)
    requires
        separates(by, c),
        unseparated(part, by),
    ensures
        split(part + seq![c] + s, by) == seq![part] + split(s, by),
    decreases s.len(),
{
    let whole = part + seq![c] + s;
    if s.len() == 0 {
        split_of_one(part, by);
        assert(whole.drop_last() =~= part);
        assert(whole.last() == c);
        assert(split(whole, by) =~= seq![part] + split(s, by));
    } else {
        let less = s.drop_last();
        split_behind_a_part(part, c, less, by);
        split_nonempty(less, by);
        assert(whole.drop_last() =~= part + seq![c] + less);
        assert(whole.last() == s.last());
        let before = split(less, by);
        assert((seq![part] + before).drop_last() =~= seq![part] + before.drop_last());
        assert((seq![part] + before).last() == before.last());
        assert(split(whole, by) =~= seq![part] + split(s, by));
    }
}

/// The words of a text are its first word and then those of what follows.
pub proof fn words_one_by_one(word: Seq<char>, c: char, rest: Seq<char>)
    requires
        word.len() > 0,
        whitespace(c),
        forall|i: int| 0 <= i < word.len() ==> !whitespace(#[trigger] word[i]),
    ensures
        words(word) == seq![word],
        words(word + seq![c] + rest) == seq![word] + words(rest),
{
    let by = Separator::Whitespace;
    let keep = |p: Seq<char>| p.len() > 0;
    assert(unseparated(word, by));
    split_of_one(word, by);
    nonempty_parts_stay(seq![word]);
    split_behind_a_part(word, c, rest, by);
    Seq::filter_distributes_over_add(seq![word], split(rest, by), keep);
}

/// Lines that were joined are read again.
pub proof fn lines_of_joined(parts: Seq<Seq<char>>)
    requires
        parts.len() > 0,
        parts.last().len() > 0,
        forall|i: int, k: int|
            0 <= i < parts.len() && 0 <= k < parts[i].len() ==> #[trigger] parts[i][k] != '\n'
                && parts[i][k] != '\r',
    ensures
        lines(joined(parts, seq!['\n'])) == parts,
{
    let by = Separator::Char('\n');
    assert forall|i: int| 0 <= i < parts.len() implies unseparated(#[trigger] parts[i], by) by {
        assert forall|k: int| 0 <= k < parts[i].len() implies !separates(
            by,
            #[trigger] parts[i][k],
        ) by {}
    }
    split_of_joined(parts, '\n', by);
    let ended = parts.drop_last().map_values(|p: Seq<char>| without_cr(p));
    assert forall|i: int| 0 <= i < ended.len() implies ended[i] == parts[i] by {
        if parts[i].len() > 0 {
            assert(parts[i][parts[i].len() - 1] != '\r');
        }
    }
    assert(ended.push(parts.last()) =~= parts);
}

/// Joined parts begin with the first part and a separator.
pub proof fn joined_begins_with_its_first(parts: Seq<Seq<char>>, sep: Seq<char>)
    requires
        parts.len() >= 2,
    ensures
        starts_with(joined(parts, sep), parts[0] + sep),
    decreases parts.len(),
{
    let whole = joined(parts, sep);
    let head = parts[0] + sep;
    let less = parts.drop_last();
    if parts.len() == 2 {
        assert(joined(less, sep) == parts[0]);
        assert(whole == parts[0] + sep + parts[1]);
        assert(whole.take(head.len() as int) =~= head);
    } else {
        joined_begins_with_its_first(less, sep);
        assert(whole.take(head.len() as int) =~= joined(less, sep).take(head.len() as int));
    }
}

/// A text begins with its first part and ends with its last; and what a text
/// begins or ends with is such a part of it.
pub proof fn texts_begin_and_end_with_their_parts(a: Seq<char>, b: Seq<char>, s: Seq<char>)
    ensures
        starts_with(a + b, a),
        ends_with(a + b, b),
        starts_with(s, a) ==> s == a + s.skip(a.len() as int),
        ends_with(s, b) ==> s == s.take(s.len() - b.len()) + b,
{
    assert((a + b).take(a.len() as int) =~= a);
    assert((a + b).skip(a.len() as int) =~= b);
    if starts_with(s, a) {
        assert(s =~= s.take(a.len() as int) + s.skip(a.len() as int));
    }
    if ends_with(s, b) {
        let n = s.len() - b.len();
        assert(s =~= s.take(n) + s.skip(n));
    }
}

/// Texts stand in the order of their first different characters, and a text
/// before what it begins.
pub proof fn texts_are_ordered_by_their_characters(
    start: Seq<char>,
    c: char,
    d: char,
    a: Seq<char>,
    b: Seq<char>,
)
    requires
        c != d,
    ensures
        lex_lt(start + seq![c] + a, start + seq![d] + b) <==> c < d,
        lex_lt(start, start + seq![c] + a),
    decreases start.len(),
{
    let x = start + seq![c] + a;
    let y = start + seq![d] + b;
    if start.len() == 0 {
        assert(x[0] == c && y[0] == d);
    } else {
        let rest = start.drop_first();
        texts_are_ordered_by_their_characters(rest, c, d, a, b);
        assert(x.drop_first() =~= rest + seq![c] + a);
        assert(y.drop_first() =~= rest + seq![d] + b);
    }
}

/// Blanks, tabs, line ends and the wide blank are white space; what can be seen of
/// ASCII is not.
pub proof fn what_white_space_is(c: char)
    ensures
        c == ' ' || c == '\t' || c == '\n' || c == '\r' || c == '\u{0b}' || c == '\u{0c}' || c
            == '\u{85}' || c == '\u{a0}' || c == '\u{1680}' || '\u{2000}' <= c <= '\u{200a}' || c
            == '\u{2028}' || c == '\u{2029}' || c == '\u{202f}' || c == '\u{205f}' || c
            == '\u{3000}' <==> whitespace(c),
        '!' <= c <= '~' ==> !whitespace(c),
{
}

/// Of a text its first characters are taken: as many as asked for, or all.
pub proof fn the_first_are_taken(a: Seq<char>, b: Seq<char>)
    ensures
        take_at_most(a + b, a.len()) == a,
        take_at_most(a, a.len() + b.len()) == a,
{
    assert(take_at_most(a + b, a.len()) =~= a);
}

/// What stands before a text again and again is taken off it.
pub proof fn repetitions_are_stripped(p: Seq<char>, s: Seq<char>)
    requires
        p.len() > 0,
    ensures
        strip_start(p + s, p) == strip_start(s, p),
        strip_end(s + p, p) == strip_end(s, p),
        !starts_with(s, p) ==> strip_start(s, p) == s,
        !ends_with(s, p) ==> strip_end(s, p) == s,
        !starts_with(strip_start(s, p), p),
        !ends_with(strip_end(s, p), p),
    decreases s.len(),
{
    assert((p + s).take(p.len() as int) =~= p);
    assert((p + s).skip(p.len() as int) =~= s);
    assert((s + p).skip((s + p).len() - p.len()) =~= p);
    assert((s + p).take((s + p).len() - p.len()) =~= s);
    stripped_has_no_more(s, p);
}

proof fn stripped_has_no_more(s: Seq<char>, p: Seq<char>)
    requires
        p.len() > 0,
    ensures
        !starts_with(strip_start(s, p), p),
        !ends_with(strip_end(s, p), p),
    decreases s.len(),
{
    if starts_with(s, p) {
        stripped_has_no_more(s.skip(p.len() as int), p);
    }
    if ends_with(s, p) {
        stripped_has_no_more(s.take(s.len() - p.len()), p);
    }
}

/// The letters and digits of ASCII are those of its three ranges.
pub proof fn what_letters_and_digits_are(c: char)
    requires
        c as u32 <= 0x7f,
    ensures
        alphanumeric(c) <==> 97 <= c as u32 <= 122 || 65 <= c as u32 <= 90 || 48 <= c as u32 <= 57,
        65 <= c as u32 <= 90 ==> ascii_lower(c) as u32 == c as u32 + 32,
        !(65 <= c as u32 <= 90) ==> ascii_lower(c) == c,
{
}

} // verus!

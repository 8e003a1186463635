//! The sketch of a topic stands for the topic: it is its own sketch.

use crate::orchestrator::episode::boundary;
use crate::seqs;
use crate::text;
use crate::text::Separator;
use crate::token_set;
use vstd::prelude::*;

verus! {

// Lengths in bytes

proof fn bytes_of_both(a: Seq<char>, b: Seq<char>)
    ensures
        text::utf8_len(a + b) == text::utf8_len(a) + text::utf8_len(b),
    decreases a.len(),
{
    if a.len() == 0 {
        assert(a + b =~= b);
    } else {
        assert((a + b).drop_first() =~= a.drop_first() + b);
        bytes_of_both(a.drop_first(), b);
    }
}

proof fn lower_case_keeps_bytes(s: Seq<char>)
    ensures
        text::utf8_len(text::lowered(s)) == text::utf8_len(s),
    decreases s.len(),
{
    if s.len() > 0 {
        let lower = text::lowered(s);
        assert(lower.drop_first() =~= text::lowered(s.drop_first()));
        lower_case_keeps_bytes(s.drop_first());
        assert(lower[0] == text::ascii_lower(s[0]));
        assert(vstd::utf8::encode_scalar(lower[0] as u32).len() == vstd::utf8::encode_scalar(
            s[0] as u32,
        ).len());
    }
}

// Parts of a text

proof fn trim_end_of_more(x: char, s: Seq<char>)
    ensures
        text::trim_end(s).len() > 0 ==> text::trim_end(seq![x] + s) == seq![x] + text::trim_end(s),
        text::utf8_len(text::trim_end(s)) <= text::utf8_len(text::trim_end(seq![x] + s)),
    decreases s.len(),
{
    let whole = seq![x] + s;
    if s.len() > 0 {
        assert(whole.last() == s.last());
        if text::whitespace(s.last()) {
            assert(whole.drop_last() =~= seq![x] + s.drop_last());
            trim_end_of_more(x, s.drop_last());
        } else {
            bytes_of_both(seq![x], s);
        }
    }
}

proof fn trim_start_takes_no_end(s: Seq<char>)
    ensures
        text::utf8_len(text::trim(s)) <= text::utf8_len(text::trim_end(s)),
    decreases s.len(),
{
    if s.len() > 0 && text::whitespace(s[0]) {
        let rest = s.drop_first();
        trim_start_takes_no_end(rest);
        trim_end_of_more(s[0], rest);
        assert(seq![s[0]] + rest =~= s);
    }
}

/// A character in front makes a trimmed text no shorter.
proof fn trimmed_with_a_front(c: char, s: Seq<char>)
    ensures
        text::utf8_len(text::trim(s)) <= text::utf8_len(text::trim(seq![c] + s)),
{
    let whole = seq![c] + s;
    assert(whole.drop_first() =~= s);
    if !text::whitespace(c) {
        trim_start_takes_no_end(s);
        trim_end_of_more(c, s);
    }
}

proof fn trim_end_is_shorter(s: Seq<char>)
    ensures
        text::utf8_len(text::trim_end(s)) <= text::utf8_len(s),
    decreases s.len(),
{
    if s.len() > 0 && text::whitespace(s.last()) {
        trim_end_is_shorter(s.drop_last());
        assert(s.drop_last() + seq![s.last()] =~= s);
        bytes_of_both(s.drop_last(), seq![s.last()]);
    }
}

proof fn trim_start_with_an_end(s: Seq<char>, c: char)
    ensures
        text::trim_start(s).len() > 0 ==> text::trim_start(s.push(c)) == text::trim_start(s).push(
            c,
        ),
    decreases s.len(),
{
    if s.len() > 0 && text::whitespace(s[0]) {
        assert(s.push(c).drop_first() =~= s.drop_first().push(c));
        trim_start_with_an_end(s.drop_first(), c);
    }
}

/// A character at the end makes a trimmed text no shorter.
proof fn trimmed_with_an_end(s: Seq<char>, c: char)
    ensures
        text::utf8_len(text::trim(s)) <= text::utf8_len(text::trim(s.push(c))),
{
    trim_start_with_an_end(s, c);
    let front = text::trim_start(s);
    if front.len() > 0 {
        assert(front.push(c).drop_last() =~= front);
        assert(front.push(c).last() == c);
        if !text::whitespace(c) {
            trim_end_is_shorter(front);
            assert(front + seq![c] =~= front.push(c));
            bytes_of_both(front, seq![c]);
        }
    }
}

proof fn split_with_a_front(c: char, s: Seq<char>, by: Separator)
    ensures
        text::split(s, by).len() > 0,
        text::split(seq![c] + s, by) == (if text::separates(by, c) {
            seq![Seq::<char>::empty()] + text::split(s, by)
        } else {
            text::split(s, by).update(0, seq![c] + text::split(s, by)[0])
        }),
    decreases s.len(),
{
    let whole = seq![c] + s;
    let pieces = text::split(s, by);
    text::split_nonempty(s, by);
    if s.len() == 0 {
        assert(whole.drop_last() =~= Seq::<char>::empty());
        assert(whole.last() == c);
        let before = text::split(whole.drop_last(), by);
        assert(before == seq![Seq::<char>::empty()]);
        if text::separates(by, c) {
            assert(text::split(whole, by) =~= seq![Seq::<char>::empty()] + pieces);
        } else {
            assert(before.last().push(c) =~= seq![c] + pieces[0]);
            assert(text::split(whole, by) =~= pieces.update(0, seq![c] + pieces[0]));
        }
    } else {
        let less = s.drop_last();
        assert(whole.drop_last() =~= seq![c] + less);
        assert(whole.last() == s.last());
        split_with_a_front(c, less, by);
        text::split_nonempty(less, by);
        let before = text::split(less, by);
        let grown = text::split(whole.drop_last(), by);
        let result = text::split(whole, by);
        if text::separates(by, c) {
            let none = Seq::<char>::empty();
            assert(grown.last() == before.last());
            assert(grown.drop_last() =~= seq![none] + before.drop_last());
            assert(result =~= seq![none] + pieces);
        } else if text::separates(by, s.last()) {
            assert(result =~= pieces.update(0, seq![c] + pieces[0]));
        } else if before.len() == 1 {
            assert(grown.last() == seq![c] + before[0]);
            assert((seq![c] + before[0]).push(s.last()) =~= seq![c] + before[0].push(s.last()));
            assert(result =~= pieces.update(0, seq![c] + pieces[0]));
        } else {
            assert(grown.last() == before.last());
            assert(result =~= pieces.update(0, seq![c] + pieces[0]));
        }
    }
}

// Texts without tokens

/// No piece is long enough for a token.
pub open spec fn all_short(pieces: Seq<Seq<char>>) -> bool {
    forall|i: int| 0 <= i < pieces.len() ==> text::utf8_len(text::trim(#[trigger] pieces[i])) < 3
}

proof fn short_pieces_have_no_token(pieces: Seq<Seq<char>>)
    ensures
        boundary::piece_tokens(pieces) == Set::<Seq<char>>::empty() <==> all_short(pieces),
    decreases pieces.len(),
{
    let none = Set::<Seq<char>>::empty();
    if pieces.len() > 0 {
        let less = pieces.drop_last();
        short_pieces_have_no_token(less);
        let before = boundary::piece_tokens(less);
        let token = text::trim(pieces.last());
        assert(pieces.last() == pieces[pieces.len() - 1]);
        if text::utf8_len(token) >= 3 {
            assert(before.insert(text::lowered(token)).contains(text::lowered(token)));
            assert(!none.contains(text::lowered(token)));
        } else if all_short(less) {
            assert forall|i: int| 0 <= i < pieces.len() implies text::utf8_len(
                text::trim(#[trigger] pieces[i]),
            ) < 3 by {
                if i < less.len() {
                    assert(less[i] == pieces[i]);
                }
            }
        } else {
            let i = choose|i: int|
                0 <= i < less.len() && text::utf8_len(text::trim(#[trigger] less[i])) >= 3;
            assert(pieces[i] == less[i]);
        }
    }
}

pub open spec fn tokenless(s: Seq<char>) -> bool {
    all_short(text::split(s, Separator::NonAlphanumeric))
}

proof fn prefix_is_tokenless(s: Seq<char>, n: int)
    requires
        tokenless(s),
        0 <= n <= s.len(),
    ensures
        tokenless(s.take(n)),
    decreases s.len() - n,
{
    let by = Separator::NonAlphanumeric;
    if n == s.len() {
        assert(s.take(n) =~= s);
    } else {
        prefix_is_tokenless(s, n + 1);
        let more = s.take(n + 1);
        let less = s.take(n);
        assert(more.drop_last() =~= less);
        let pieces = text::split(less, by);
        let all = text::split(more, by);
        text::split_nonempty(less, by);
        assert forall|i: int| 0 <= i < pieces.len() implies text::utf8_len(
            text::trim(#[trigger] pieces[i]),
        ) < 3 by {
            if i < pieces.len() - 1 || text::separates(by, more.last()) {
                assert(all[i] == pieces[i]);
            } else {
                assert(all[i] == pieces[i].push(more.last()));
                trimmed_with_an_end(pieces[i], more.last());
            }
        }
    }
}

proof fn suffix_is_tokenless(s: Seq<char>, n: int)
    requires
        tokenless(s),
        0 <= n <= s.len(),
    ensures
        tokenless(s.skip(n)),
    decreases n,
{
    let by = Separator::NonAlphanumeric;
    if n == 0 {
        assert(s.skip(0) =~= s);
    } else {
        suffix_is_tokenless(s, n - 1);
        let more = s.skip(n - 1);
        let less = s.skip(n);
        let c = more[0];
        assert(more =~= seq![c] + less);
        split_with_a_front(c, less, by);
        let pieces = text::split(less, by);
        let all = text::split(more, by);
        assert forall|i: int| 0 <= i < pieces.len() implies text::utf8_len(
            text::trim(#[trigger] pieces[i]),
        ) < 3 by {
            if text::separates(by, c) {
                assert(all[i + 1] == pieces[i]);
            } else if i == 0 {
                assert(all[0] == seq![c] + pieces[0]);
                trimmed_with_a_front(c, pieces[0]);
            } else {
                assert(all[i] == pieces[i]);
            }
        }
    }
}

proof fn trimmed_is_tokenless(s: Seq<char>)
    requires
        tokenless(s),
    ensures
        tokenless(text::trim(s)),
{
    text::trim_is_part(s);
    let t = text::trim(s);
    let from = choose|from: int|
        0 <= from <= s.len() - t.len() && #[trigger] s.subrange(from, from + t.len()) == t;
    suffix_is_tokenless(s, from);
    prefix_is_tokenless(s.skip(from), t.len() as int);
    assert(s.skip(from).take(t.len() as int) =~= t);
}

// Tokens

/// A token as a text has it: long enough, trimmed, of letters and numbers, and
/// without an ASCII letter in upper case.
pub open spec fn is_token(t: Seq<char>) -> bool {
    &&& text::utf8_len(t) >= 3
    &&& text::trim(t) == t
    &&& text::lowered(t) == t
    &&& text::unseparated(t, Separator::NonAlphanumeric)
}

proof fn lowered_piece_is_token(piece: Seq<char>)
    requires
        text::unseparated(piece, Separator::NonAlphanumeric),
        text::utf8_len(text::trim(piece)) >= 3,
    ensures
        is_token(text::lowered(text::trim(piece))),
{
    let t = text::trim(piece);
    let lower = text::lowered(t);
    text::trim_is_part(piece);
    text::trim_leaves_no_blank_ends(piece);
    lower_case_keeps_bytes(t);
    let from = choose|from: int|
        0 <= from <= piece.len() - t.len() && #[trigger] piece.subrange(from, from + t.len()) == t;
    assert(t.len() > 0);
    assert forall|i: int| 0 <= i < lower.len() implies !text::separates(
        Separator::NonAlphanumeric,
        #[trigger] lower[i],
    ) by {
        assert(t[i] == piece[from + i]);
        assert(!text::separates(Separator::NonAlphanumeric, piece[from + i]));
        text::lower_keeps_class(t[i]);
    }
    text::lower_keeps_class(t[0]);
    text::lower_keeps_class(t.last());
    assert(lower[0] == text::ascii_lower(t[0]));
    assert(lower.last() == text::ascii_lower(t.last()));
    assert(text::lowered(lower) =~= lower) by {
        assert forall|i: int| 0 <= i < lower.len() implies text::lowered(lower)[i] == lower[i] by {
            text::lower_keeps_class(t[i]);
        }
    }
}

proof fn piece_tokens_are_tokens(pieces: Seq<Seq<char>>)
    requires
        forall|i: int|
            0 <= i < pieces.len() ==> text::unseparated(
                #[trigger] pieces[i],
                Separator::NonAlphanumeric,
            ),
    ensures
        boundary::piece_tokens(pieces).finite(),
        forall|t: Seq<char>| #[trigger]
            boundary::piece_tokens(pieces).contains(t) ==> is_token(t),
    decreases pieces.len(),
{
    if pieces.len() > 0 {
        let less = pieces.drop_last();
        assert forall|i: int| 0 <= i < less.len() implies text::unseparated(
            #[trigger] less[i],
            Separator::NonAlphanumeric,
        ) by {
            assert(less[i] == pieces[i]);
        }
        piece_tokens_are_tokens(less);
        let last = pieces[pieces.len() - 1];
        assert(text::unseparated(last, Separator::NonAlphanumeric));
        if text::utf8_len(text::trim(last)) >= 3 {
            lowered_piece_is_token(last);
        }
    }
}

proof fn tokens_are_their_own_tokens(tokens: Seq<Seq<char>>)
    requires
        forall|i: int| 0 <= i < tokens.len() ==> is_token(#[trigger] tokens[i]),
    ensures
        boundary::piece_tokens(tokens) == tokens.to_set(),
    decreases tokens.len(),
{
    if tokens.len() == 0 {
        assert(tokens.to_set() =~= Set::<Seq<char>>::empty());
    } else {
        let less = tokens.drop_last();
        let last = tokens[tokens.len() - 1];
        assert forall|i: int| 0 <= i < less.len() implies is_token(#[trigger] less[i]) by {
            assert(less[i] == tokens[i]);
        }
        tokens_are_their_own_tokens(less);
        assert(is_token(last));
        assert forall|t: Seq<char>| tokens.to_set().contains(t) == less.to_set().insert(
            last,
        ).contains(t) by {
            if tokens.contains(t) {
                let i = choose|i: int| 0 <= i < tokens.len() && tokens[i] == t;
                if i < less.len() {
                    assert(less[i] == t);
                }
            }
            if less.contains(t) {
                let i = choose|i: int| 0 <= i < less.len() && less[i] == t;
                assert(tokens[i] == t);
            }
        }
        assert(tokens.to_set() =~= less.to_set().insert(last));
    }
}

/// The tokens of a text: a finite set of tokens.
proof fn topic_tokens_are_tokens(s: Seq<char>)
    ensures
        boundary::topic_tokens(s).finite(),
        forall|t: Seq<char>| #[trigger] boundary::topic_tokens(s).contains(t) ==> is_token(t),
{
    text::pieces_are_unseparated(s, Separator::NonAlphanumeric);
    piece_tokens_are_tokens(text::split(s, Separator::NonAlphanumeric));
}

/// A sketch names the tokens of its text in their order, as many as it may; and
/// the sketch of a sketch is the sketch.
pub proof fn sketch_is_its_own_sketch(s: Seq<char>)
    ensures
        boundary::topic_tokens(s) != Set::<Seq<char>>::empty() ==> boundary::topic_tokens(
            boundary::topic_sketch(s),
        ) == seqs::at_most(
            token_set::in_order(boundary::topic_tokens(s)),
            boundary::SKETCH_TOKENS as nat,
        ).to_set(),
        boundary::topic_sketch(boundary::topic_sketch(s)) == boundary::topic_sketch(s),
{
    let by = Separator::NonAlphanumeric;
    let set = boundary::topic_tokens(s);
    let sketch = boundary::topic_sketch(s);
    topic_tokens_are_tokens(s);
    token_set::finite_set_is_in_order(set);
    let tokens = token_set::in_order(set);
    if tokens.len() == 0 {
        assert(set =~= Set::<Seq<char>>::empty()) by {
            assert forall|t: Seq<char>| !set.contains(t) by {
                if set.contains(t) {
                    assert(tokens.contains(t));
                }
            }
        }
        short_pieces_have_no_token(text::split(s, by));
        trimmed_is_tokenless(s);
        let start = text::take_at_most(text::trim(s), boundary::SKETCH_CHARS as nat);
        if text::trim(s).len() > boundary::SKETCH_CHARS {
            prefix_is_tokenless(text::trim(s), boundary::SKETCH_CHARS as int);
        }
        trimmed_is_tokenless(start);
        assert(sketch == text::trim(start));
        short_pieces_have_no_token(text::split(sketch, by));
        assert(boundary::topic_tokens(sketch) == Set::<Seq<char>>::empty());
        assert(token_set::in_order(boundary::topic_tokens(sketch)) == tokens);
        text::trim_idempotent(start);
        text::trim_leaves_no_blank_ends(start);
    } else {
        reveal_strlit(" ");
        assert(" "@ =~= seq![' ']);
        let named = seqs::at_most(tokens, boundary::SKETCH_TOKENS as nat);
        assert forall|i: int| 0 <= i < named.len() implies is_token(#[trigger] named[i]) by {
            assert(named[i] == tokens[i]);
            assert(tokens.to_set().contains(tokens[i]));
        }
        assert forall|i: int| 0 <= i < named.len() implies text::unseparated(
            #[trigger] named[i],
            by,
        ) by {
            assert(is_token(named[i]));
        }
        text::split_of_joined(named, ' ', by);
        tokens_are_their_own_tokens(named);
        assert(boundary::topic_tokens(sketch) == named.to_set());
        assert forall|i: int, j: int| 0 <= i < j < named.len() implies text::lex_lt(
            #[trigger] named[i],
            #[trigger] named[j],
        ) by {
            assert(named[i] == tokens[i] && named[j] == tokens[j]);
        }
        token_set::sorted_is_in_order(named);
        assert(token_set::in_order(boundary::topic_tokens(sketch)) == named);
        assert(seqs::at_most(named, boundary::SKETCH_TOKENS as nat) == named);
    }
}

} // verus!

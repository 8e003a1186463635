//! Sets of text tokens.

use crate::text;
use vstd::prelude::*;

verus! {

/// A finite set of texts. No text is held twice.
#[derive(Debug)]
pub struct TokenSet {
    items: Vec<String>,
}

impl View for TokenSet {
    type V = Set<Seq<char>>;

    closed spec fn view(&self) -> Set<Seq<char>> {
        text::views(self.items@).to_set()
    }
}

/// The index of `token` in `items`, where `items` holds it.
pub fn position_of(items: &[String], token: &str) -> (r: Option<usize>)
    ensures
        match r {
            Some(i) => i < items@.len() && items@[i as int]@ == token@,
            None => !text::views(items@).contains(token@),
        },
{
    let n: usize = items.len();
    for i in 0..n
        invariant
            n == items@.len(),
            forall|k: int| 0 <= k < i ==> #[trigger] items@[k]@ != token@,
    {
        if text::same_text(items[i].as_str(), token) {
            return Some(i);
        }
    }
    assert(!text::views(items@).contains(token@)) by {
        if text::views(items@).contains(token@) {
            let k = choose|k: int|
                0 <= k < text::views(items@).len() && text::views(items@)[k] == token@;
            assert(items@[k]@ == token@);
        }
    }
    None
}

/// Every element of `s` stands before every later one in the order of texts.
pub open spec fn strictly_sorted(s: Seq<Seq<char>>) -> bool {
    forall|i: int, j: int| 0 <= i < j < s.len() ==> text::lex_lt(#[trigger] s[i], #[trigger] s[j])
}

pub proof fn insert_keeps_sorted(s: Seq<Seq<char>>, at: int, x: Seq<char>)
    requires
        strictly_sorted(s),
        0 <= at <= s.len(),
        forall|i: int| 0 <= i < at ==> text::lex_lt(#[trigger] s[i], x),
        at < s.len() ==> text::lex_lt(x, s[at]),
    ensures
        strictly_sorted(s.insert(at, x)),
        s.insert(at, x).to_set() == s.to_set().insert(x),
{
    let t = s.insert(at, x);
    assert forall|i: int, j: int| 0 <= i < j < t.len() implies text::lex_lt(
        #[trigger] t[i],
        #[trigger] t[j],
    ) by {
        if j == at {
            assert(t[i] == s[i]);
        } else if i == at {
            assert(t[j] == s[j - 1]);
            if j - 1 > at {
                assert(text::lex_lt(s[at], s[j - 1]));
                text::lex_lt_transitive(x, s[at], s[j - 1]);
            }
        } else {
            assert(t[i] == if i < at { s[i] } else { s[i - 1] });
            assert(t[j] == if j < at { s[j] } else { s[j - 1] });
        }
    }
    assert forall|e: Seq<char>| t.to_set().contains(e) == s.to_set().insert(x).contains(e) by {
        if t.contains(e) {
            let i = choose|i: int| 0 <= i < t.len() && t[i] == e;
            if i < at {
                assert(s[i] == e);
            } else if i > at {
                assert(s[i - 1] == e);
            }
        }
        if s.contains(e) {
            let i = choose|i: int| 0 <= i < s.len() && s[i] == e;
            if i < at {
                assert(t[i] == e);
            } else {
                assert(t[i + 1] == e);
            }
        }
        assert(t[at] == x);
    }
    assert(t.to_set() =~= s.to_set().insert(x));
}

/// A strictly sorted sequence is fixed by the set of its elements.
pub proof fn sorted_is_unique(a: Seq<Seq<char>>, b: Seq<Seq<char>>)
    requires
        strictly_sorted(a),
        strictly_sorted(b),
        a.to_set() == b.to_set(),
    ensures
        a == b,
    decreases a.len(),
{
    if a.len() == 0 {
        if b.len() > 0 {
            assert(b.to_set().contains(b[0]));
            assert(a.contains(b[0]));
        }
        assert(a == b);
    } else {
        assert(a.to_set().contains(a.last()));
        assert(b.contains(a.last()));
        let k = choose|k: int| 0 <= k < b.len() && b[k] == a.last();
        assert(b.to_set().contains(b.last()));
        assert(a.contains(b.last()));
        let m = choose|m: int| 0 <= m < a.len() && a[m] == b.last();
        if k < b.len() - 1 {
            assert(text::lex_lt(b[k], b[b.len() - 1]));
            if m < a.len() - 1 {
                assert(text::lex_lt(a[m], a[a.len() - 1]));
                text::lex_lt_transitive(a.last(), b.last(), a.last());
            }
            text::lex_lt_irreflexive(a.last());
        }
        let x = a.drop_last();
        let y = b.drop_last();
        assert forall|e: Seq<char>| x.to_set().contains(e) == y.to_set().contains(e) by {
            if x.contains(e) {
                let i = choose|i: int| 0 <= i < x.len() && x[i] == e;
                assert(a[i] == e);
                assert(a.to_set().contains(e));
                assert(b.contains(e));
                let j = choose|j: int| 0 <= j < b.len() && b[j] == e;
                if j == b.len() - 1 {
                    assert(text::lex_lt(a[i], a[a.len() - 1]));
                    text::lex_lt_irreflexive(e);
                }
                assert(y[j] == e);
            }
            if y.contains(e) {
                let i = choose|i: int| 0 <= i < y.len() && y[i] == e;
                assert(b[i] == e);
                assert(b.to_set().contains(e));
                assert(a.contains(e));
                let j = choose|j: int| 0 <= j < a.len() && a[j] == e;
                if j == a.len() - 1 {
                    assert(text::lex_lt(b[i], b[b.len() - 1]));
                    text::lex_lt_irreflexive(e);
                }
                assert(x[j] == e);
            }
        }
        assert(x.to_set() =~= y.to_set());
        sorted_is_unique(x, y);
        assert(a == x.push(a.last()));
        assert(b == y.push(b.last()));
    }
}

/// The elements of a set of texts in order.
pub open spec fn in_order(set: Set<Seq<char>>) -> Seq<Seq<char>> {
    choose|s: Seq<Seq<char>>| strictly_sorted(s) && s.to_set() == set
}

/// A strictly sorted sequence is the ordering of its own elements.
pub proof fn sorted_is_in_order(s: Seq<Seq<char>>)
    requires
        strictly_sorted(s),
    ensures
        in_order(s.to_set()) == s,
{
    let t = in_order(s.to_set());
    assert(strictly_sorted(s) && s.to_set() == s.to_set());
    assert(strictly_sorted(t) && t.to_set() == s.to_set());
    sorted_is_unique(s, t);
}

proof fn place_in_order(s: Seq<Seq<char>>, x: Seq<char>) -> (at: int)
    requires
        strictly_sorted(s),
        !s.contains(x),
    ensures
        0 <= at <= s.len(),
        forall|i: int| 0 <= i < at ==> text::lex_lt(#[trigger] s[i], x),
        at < s.len() ==> text::lex_lt(x, s[at]),
    decreases s.len(),
{
    if s.len() == 0 {
        0
    } else {
        let less = s.drop_last();
        let last = s[s.len() - 1];
        text::lex_lt_total(last, x);
        assert forall|i: int, j: int| 0 <= i < j < less.len() implies text::lex_lt(
            #[trigger] less[i],
            #[trigger] less[j],
        ) by {
            assert(less[i] == s[i] && less[j] == s[j]);
        }
        if text::lex_lt(last, x) {
            assert forall|i: int| 0 <= i < s.len() implies text::lex_lt(#[trigger] s[i], x) by {
                if i < s.len() - 1 {
                    text::lex_lt_transitive(s[i], last, x);
                }
            }
            s.len() as int
        } else {
            assert(!less.contains(x)) by {
                if less.contains(x) {
                    let i = choose|i: int| 0 <= i < less.len() && less[i] == x;
                    assert(s[i] == x);
                }
            }
            let at = place_in_order(less, x);
            assert forall|i: int| 0 <= i < at implies text::lex_lt(#[trigger] s[i], x) by {
                assert(s[i] == less[i]);
            }
            if at < less.len() {
                assert(s[at] == less[at]);
            }
            at
        }
    }
}

/// A finite set of texts has an ordering, and it holds the texts of the set.
pub proof fn finite_set_is_in_order(set: Set<Seq<char>>)
    requires
        set.finite(),
    ensures
        strictly_sorted(in_order(set)),
        in_order(set).to_set() == set,
    decreases set.len(),
{
    if set.len() == 0 {
        let none = Seq::<Seq<char>>::empty();
        assert(set =~= none.to_set());
        assert(strictly_sorted(none) && none.to_set() == set);
    } else {
        let x = set.choose();
        let less = set.remove(x);
        finite_set_is_in_order(less);
        let s = in_order(less);
        assert(!s.contains(x)) by {
            if s.contains(x) {
                assert(s.to_set().contains(x));
            }
        }
        let at = place_in_order(s, x);
        insert_keeps_sorted(s, at, x);
        let t = s.insert(at, x);
        assert(t.to_set() =~= set);
        assert(strictly_sorted(t) && t.to_set() == set);
    }
}

/// Puts `token` into a strictly sorted list, unless the list holds it.
pub fn insert_sorted(items: &mut Vec<String>, token: String) -> (added: bool)
    requires
        strictly_sorted(text::views(old(items)@)),
    ensures
        strictly_sorted(text::views(final(items)@)),
        text::views(final(items)@).to_set() == text::views(old(items)@).to_set().insert(token@),
        added == !text::views(old(items)@).contains(token@),
        !added ==> final(items)@ == old(items)@,
{
    let ghost before = text::views(items@);
    let mut at: usize = 0;
    while at < items.len() && text::text_before(items[at].as_str(), token.as_str())
        invariant
            at <= items@.len(),
            before == text::views(items@),
            *items == *old(items),
            forall|i: int| 0 <= i < at ==> text::lex_lt(#[trigger] before[i], token@),
        decreases items@.len() - at,
    {
        assert(before[at as int] == items@[at as int]@);
        at = at + 1;
    }
    if at < items.len() && text::same_text(items[at].as_str(), token.as_str()) {
        assert(before[at as int] == token@);
        assert(before.to_set().contains(token@));
        assert(before.to_set().insert(token@) =~= before.to_set());
        return false;
    }
    proof {
        if at < items@.len() {
            assert(before[at as int] == items@[at as int]@);
            text::lex_lt_total(items@[at as int]@, token@);
        }
        if before.contains(token@) {
            let k = choose|k: int| 0 <= k < before.len() && before[k] == token@;
            if k < at {
                assert(text::lex_lt(before[k], token@));
            } else if k > at {
                assert(text::lex_lt(before[at as int], before[k]));
                text::lex_lt_transitive(before[k], before[at as int], before[k]);
            }
            text::lex_lt_irreflexive(token@);
        }
        insert_keeps_sorted(before, at as int, token@);
        assert(text::views(items@.insert(at as int, token)) == before.insert(at as int, token@));
    }
    items.insert(at, token);
    true
}

impl TokenSet {
    #[verifier::type_invariant]
    spec fn wf(&self) -> bool {
        text::views(self.items@).no_duplicates()
    }

    pub fn new() -> (r: Self)
        ensures
            r@ == Set::<Seq<char>>::empty(),
    {
        let r = TokenSet { items: Vec::new() };
        assert(r@ =~= Set::<Seq<char>>::empty());
        r
    }

    pub fn contains(&self, token: &str) -> (r: bool)
        ensures
            r == self@.contains(token@),
    {
        match position_of(self.items.as_slice(), token) {
            Some(i) => {
                assert(text::views(self.items@)[i as int] == token@);
                true
            },
            None => false,
        }
    }

    /// The set with `token` in it.
    pub fn with(self, token: String) -> (r: Self)
        ensures
            r@ == self@.insert(token@),
    {
        if self.contains(token.as_str()) {
            assert(self@.insert(token@) =~= self@);
            self
        } else {
            proof {
                use_type_invariant(&self);
            }
            let mut items = self.items;
            let ghost before = text::views(items@);
            proof {
                text::views_push(items@, token);
                before.lemma_push_to_set_commute(token@);
            }
            items.push(token);
            TokenSet { items }
        }
    }

    /// The set without `token`.
    pub fn without(self, token: &str) -> (r: Self)
        ensures
            r@ == self@.remove(token@),
    {
        match position_of(self.items.as_slice(), token) {
            None => {
                assert(self@.remove(token@) =~= self@);
                self
            },
            Some(at) => {
                proof {
                    use_type_invariant(&self);
                }
                let mut items = self.items;
                let ghost before = text::views(items@);
                items.remove(at);
                let ghost after = text::views(items@);
                proof {
                    assert(after == before.remove(at as int));
                    assert forall|x: Seq<char>| after.to_set().contains(x)
                        == before.to_set().remove(token@).contains(x) by {
                        assert(before[at as int] == token@);
                        if after.contains(x) {
                            let k = choose|k: int| 0 <= k < after.len() && after[k] == x;
                            if k < at {
                                assert(before[k] == x);
                            } else {
                                assert(before[k + 1] == x);
                            }
                        }
                        if before.contains(x) && x != token@ {
                            let k = choose|k: int| 0 <= k < before.len() && before[k] == x;
                            if k < at {
                                assert(after[k] == x);
                            } else {
                                assert(after[k - 1] == x);
                            }
                        }
                    }
                    assert(after.to_set() =~= before.to_set().remove(token@));
                }
                TokenSet { items }
            },
        }
    }

    pub fn len(&self) -> (r: usize)
        ensures
            r == self@.len(),
            self@.finite(),
    {
        proof {
            use_type_invariant(self);
            text::views(self.items@).unique_seq_to_set();
        }
        self.items.len()
    }

    pub fn is_empty(&self) -> (r: bool)
        ensures
            r == (self@ == Set::<Seq<char>>::empty()),
    {
        if self.items.len() == 0 {
            assert(self@ =~= Set::<Seq<char>>::empty());
            true
        } else {
            assert(text::views(self.items@).contains(text::views(self.items@)[0]));
            assert(self@.contains(text::views(self.items@)[0]));
            false
        }
    }

    /// How many tokens the two sets share.
    pub fn common_count(&self, other: &TokenSet) -> (r: usize)
        ensures
            r == self@.intersect(other@).len(),
            self@.intersect(other@).finite(),
    {
        let mut count: usize = 0;
        let n: usize = self.items.len();
        let ghost all = text::views(self.items@);
        proof {
            use_type_invariant(self);
            assert(all.take(0).to_set().intersect(other@) =~= Set::<Seq<char>>::empty());
        }
        for i in 0..n
            invariant
                n == self.items@.len(),
                all == text::views(self.items@),
                all.no_duplicates(),
                count <= i,
                count == all.take(i as int).to_set().intersect(other@).len(),
                all.take(i as int).to_set().intersect(other@).finite(),
        {
            let ghost x = all[i as int];
            proof {
                assert(all.take(i + 1) == all.take(i as int).push(x));
                all.take(i as int).lemma_push_to_set_commute(x);
                assert(!all.take(i as int).contains(x));
            }
            if other.contains(self.items[i].as_str()) {
                assert(all.take(i + 1).to_set().intersect(other@) =~= all.take(
                    i as int,
                ).to_set().intersect(other@).insert(x));
                count = count + 1;
            } else {
                assert(all.take(i + 1).to_set().intersect(other@) =~= all.take(
                    i as int,
                ).to_set().intersect(other@));
            }
        }
        assert(all.take(n as int) == all);
        count
    }

    /// The tokens of both sets.
    pub fn union(self, other: &TokenSet) -> (r: Self)
        ensures
            r@ == self@.union(other@),
    {
        let ghost start = self@;
        let mut out = self;
        let n: usize = other.items.len();
        let ghost all = text::views(other.items@);
        assert(start.union(all.take(0).to_set()) =~= start);
        for i in 0..n
            invariant
                n == other.items@.len(),
                all == text::views(other.items@),
                out@ == start.union(all.take(i as int).to_set()),
        {
            proof {
                assert(all.take(i + 1) == all.take(i as int).push(all[i as int]));
                all.take(i as int).lemma_push_to_set_commute(all[i as int]);
            }
            out = out.with(other.items[i].clone());
            assert(out@ =~= start.union(all.take(i + 1).to_set()));
        }
        assert(all.take(n as int) == all);
        out
    }

    /// The tokens in order.
    pub fn sorted(&self) -> (r: Vec<String>)
        ensures
            text::views(r@) == in_order(self@),
            strictly_sorted(text::views(r@)),
            text::views(r@).to_set() == self@,
    {
        let mut out: Vec<String> = Vec::new();
        let n: usize = self.items.len();
        let ghost all = text::views(self.items@);
        assert(text::views(out@).to_set() =~= all.take(0).to_set());
        for i in 0..n
            invariant
                n == self.items@.len(),
                all == text::views(self.items@),
                strictly_sorted(text::views(out@)),
                text::views(out@).to_set() == all.take(i as int).to_set(),
        {
            proof {
                assert(all.take(i + 1) == all.take(i as int).push(all[i as int]));
                all.take(i as int).lemma_push_to_set_commute(all[i as int]);
            }
            insert_sorted(&mut out, self.items[i].clone());
        }
        assert(all.take(n as int) == all);
        proof {
            sorted_is_in_order(text::views(out@));
        }
        out
    }
}

} // verus!

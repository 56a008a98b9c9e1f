//! Finite sets of strings, kept in ascending order.

use vstd::prelude::*;

use crate::text::{same_text, text_before};

verus! {

/// The characters of each string of a list.
pub open spec fn texts(items: Seq<String>) -> Seq<Seq<char>> {
    items.map_values(|s: String| s@)
}

/// The characters of each borrowed string of a list.
pub open spec fn str_texts(items: Seq<&str>) -> Seq<Seq<char>> {
    items.map_values(|s: &str| s@)
}

/// Whether a list of strings is strictly ascending.
pub open spec fn ascending(s: Seq<Seq<char>>) -> bool {
    forall|i: int, j: int|
        0 <= i < j < s.len() ==> crate::text::text_lt(#[trigger] s[i], #[trigger] s[j])
}

/// A set of strings. It holds each of its members once, in ascending order.
#[derive(Debug, PartialEq, Eq)]
pub struct StringSet {
    items: Vec<String>,
}

impl View for StringSet {
    type V = Seq<Seq<char>>;

    /// The members in ascending order.
    closed spec fn view(&self) -> Seq<Seq<char>> {
        texts(self.items@)
    }
}

impl Clone for StringSet {
    fn clone(&self) -> (r: StringSet)
        ensures
            r@ == self@,
    {
        proof {
            use_type_invariant(self);
        }
        let items = self.items.clone();
        assert(items@ == self.items@);
        StringSet { items }
    }
}

impl StringSet {
    #[verifier::type_invariant]
    spec fn ordered(self) -> bool {
        ascending(texts(self.items@))
    }

    /// The members as a mathematical set.
    pub open spec fn members(self) -> Set<Seq<char>> {
        self@.to_set()
    }

    /// The members are in ascending order.
    pub fn reveal_order(&self)
        ensures
            ascending(self@),
    {
        proof {
            use_type_invariant(self);
        }
    }

    /// The empty set.
    pub fn new() -> (r: StringSet)
        ensures
            r@ == Seq::<Seq<char>>::empty(),
            r.members() == Set::<Seq<char>>::empty(),
    {
        let r = StringSet { items: Vec::new() };
        assert(r@ =~= Seq::<Seq<char>>::empty());
        assert(r.members() =~= Set::<Seq<char>>::empty());
        r
    }

    /// The set of the given strings.
    pub fn of(values: &[&str]) -> (r: StringSet)
        ensures
            r.members() == str_texts(values@).to_set(),
            ascending(r@),
    {
        let mut r = StringSet::new();
        let mut i: usize = 0;
        assert(str_texts(values@).take(0).to_set() =~= Set::<Seq<char>>::empty());
        while i < values.len()
            invariant
                i <= values.len(),
                r.members() == str_texts(values@).take(i as int).to_set(),
            decreases values.len() - i,
        {
            r.insert(values[i]);
            i += 1;
            proof {
                let all = str_texts(values@);
                let before = all.take(i - 1);
                assert(all.take(i as int) == before.push(values@[i - 1]@));
                assert(before.push(values@[i - 1]@).to_set() =~= before.to_set().insert(
                    values@[i - 1]@,
                )) by {
                    lemma_push_to_set(before, values@[i - 1]@);
                }
            }
        }
        assert(str_texts(values@).take(i as int) == str_texts(values@));
        r.reveal_order();
        r
    }

    /// The number of members.
    pub fn len(&self) -> (r: usize)
        ensures
            r == self@.len(),
            r == self.members().len(),
    {
        proof {
            use_type_invariant(self);
            lemma_ascending_unique(self@);
            self@.unique_seq_to_set();
        }
        self.items.len()
    }

    /// Whether the set has no members.
    pub fn is_empty(&self) -> (r: bool)
        ensures
            r == (self@.len() == 0),
            r == (self.members() == Set::<Seq<char>>::empty()),
    {
        proof {
            if self@.len() == 0 {
                assert(self.members() =~= Set::<Seq<char>>::empty());
            } else {
                assert(self.members().contains(self@[0]));
            }
        }
        self.items.len() == 0
    }

    /// The member at a position in ascending order.
    pub fn get(&self, i: usize) -> (r: &String)
        requires
            i < self@.len(),
        ensures
            r@ == self@[i as int],
    {
        &self.items[i]
    }

    /// Whether a string is a member.
    pub fn contains(&self, value: &str) -> (r: bool)
        ensures
            r == self@.contains(value@),
            r == self.members().contains(value@),
    {
        let mut i: usize = 0;
        while i < self.items.len()
            invariant
                i <= self.items.len(),
                forall|k: int| 0 <= k < i ==> #[trigger] self@[k] != value@,
            decreases self.items.len() - i,
        {
            if same_text(self.items[i].as_str(), value) {
                assert(self@[i as int] == value@);
                return true;
            }
            i += 1;
        }
        false
    }

    /// Adds a member; a member already there is not added again.
    pub fn insert(&mut self, value: &str)
        ensures
            final(self).members() == old(self).members().insert(value@),
            ascending(final(self)@),
    {
        proof {
            use_type_invariant(&*self);
        }
        let ghost before = self@;
        let mut i: usize = 0;
        while i < self.items.len() && text_before(self.items[i].as_str(), value)
            invariant
                i <= self.items.len(),
                self@ == before,
                ascending(before),
                forall|k: int| 0 <= k < i ==> crate::text::text_lt(#[trigger] before[k], value@),
            decreases self.items.len() - i,
        {
            assert(self@[i as int] == self.items@[i as int]@);
            i += 1;
        }
        if i < self.items.len() && same_text(self.items[i].as_str(), value) {
            assert(self@[i as int] == self.items@[i as int]@);
            assert(self.members() =~= self.members().insert(value@));
            return;
        }
        let mut items: Vec<String> = Vec::new();
        std::mem::swap(&mut items, &mut self.items);
        let ghost old_items = items@;
        items.insert(i, value.to_owned());
        proof {
            let after = texts(items@);
            assert(after == before.insert(i as int, value@));
            if i < before.len() {
                crate::text::lemma_text_lt_total(before[i as int], value@);
            }
            assert forall|a: int, b: int| 0 <= a < b < after.len() implies crate::text::text_lt(
                #[trigger] after[a],
                #[trigger] after[b],
            ) by {
                if b == i {
                    assert(after[a] == before[a]);
                } else if a == i {
                    assert(after[b] == before[b - 1]);
                    if b - 1 > i {
                        assert(crate::text::text_lt(before[i as int], before[b - 1]));
                        crate::text::lemma_text_lt_transitive(
                            value@,
                            before[i as int],
                            before[b - 1],
                        );
                    }
                } else {
                    let x = if a < i { a } else { a - 1 };
                    let y = if b < i { b } else { b - 1 };
                    assert(after[a] == before[x] && after[b] == before[y]);
                    assert(crate::text::text_lt(before[x], before[y]));
                }
            }
            assert(after.to_set() =~= before.to_set().insert(value@)) by {
                assert forall|x: Seq<char>| after.to_set().contains(x) == before.to_set().insert(
                    value@,
                ).contains(x) by {
                    if before.contains(x) {
                        let k = before.index_of(x);
                        let m = if k < i { k } else { k + 1 };
                        assert(after[m] == x);
                    }
                    if x == value@ {
                        assert(after[i as int] == x);
                    }
                    if after.contains(x) && x != value@ {
                        let k = after.index_of(x);
                        let m = if k < i { k } else { k - 1 };
                        assert(before[m] == x);
                    }
                }
            }
        }
        self.items = items;
    }

    /// Whether two sets have the same members.
    pub fn same(&self, other: &StringSet) -> (r: bool)
        ensures
            r == (self@ == other@),
    {
        if self.items.len() != other.items.len() {
            assert(self@.len() != other@.len());
            return false;
        }
        let mut i: usize = 0;
        while i < self.items.len()
            invariant
                i <= self.items.len(),
                self.items.len() == other.items.len(),
                forall|k: int| 0 <= k < i ==> #[trigger] self@[k] == other@[k],
            decreases self.items.len() - i,
        {
            if !same_text(self.items[i].as_str(), other.items[i].as_str()) {
                assert(self@[i as int] != other@[i as int]);
                return false;
            }
            i += 1;
        }
        assert(self@ =~= other@);
        true
    }

    /// Whether every member is a member of `other`.
    pub fn is_subset(&self, other: &StringSet) -> (r: bool)
        ensures
            r == self.members().subset_of(other.members()),
    {
        let mut i: usize = 0;
        while i < self.items.len()
            invariant
                i <= self.items.len(),
                forall|k: int| 0 <= k < i ==> other@.contains(#[trigger] self@[k]),
            decreases self.items.len() - i,
        {
            if !other.contains(self.items[i].as_str()) {
                assert(self@[i as int] == self.items@[i as int]@);
                assert(self.members().contains(self@[i as int]));
                return false;
            }
            i += 1;
        }
        proof {
            assert forall|x: Seq<char>| self.members().contains(x) implies other.members().contains(
                x,
            ) by {
                let k = self@.index_of(x);
                assert(other@.contains(self@[k]));
            }
        }
        true
    }

    /// The members that both sets have.
    pub fn intersection(&self, other: &StringSet) -> (r: StringSet)
        ensures
            r.members() == self.members().intersect(other.members()),
            ascending(r@),
    {
        let mut r = StringSet::new();
        let mut i: usize = 0;
        while i < self.items.len()
            invariant
                i <= self.items.len(),
                r.members() == self@.take(i as int).to_set().intersect(other.members()),
            decreases self.items.len() - i,
        {
            proof {
                let before = self@.take(i as int);
                assert(self@.take(i + 1) == before.push(self@[i as int]));
                lemma_push_to_set(before, self@[i as int]);
            }
            if other.contains(self.items[i].as_str()) {
                r.insert(self.items[i].as_str());
            }
            i += 1;
            assert(r.members() =~= self@.take(i as int).to_set().intersect(other.members()));
        }
        assert(self@.take(i as int) == self@);
        r.reveal_order();
        r
    }
}

/// An ascending list holds nothing twice.
pub proof fn lemma_ascending_unique(s: Seq<Seq<char>>)
    requires
        ascending(s),
    ensures
        s.no_duplicates(),
{
    assert forall|i: int, j: int| 0 <= i < s.len() && 0 <= j < s.len() && i != j implies s[i]
        != s[j] by {
        crate::text::lemma_text_lt_irreflexive(s[i]);
        if i < j {
            assert(crate::text::text_lt(s[i], s[j]));
        } else {
            assert(crate::text::text_lt(s[j], s[i]));
        }
    }
}

/// Two ascending lists with the same members are the same list.
pub proof fn lemma_ascending_determined(a: Seq<Seq<char>>, b: Seq<Seq<char>>)
    requires
        ascending(a),
        ascending(b),
        a.to_set() == b.to_set(),
    ensures
        a == b,
    decreases a.len(),
{
    if a.len() == 0 {
        if b.len() > 0 {
            assert(b.to_set().contains(b[0]));
            assert(a.contains(b[0]));
        }
        assert(a =~= b);
    } else {
        assert(a.to_set().contains(a.last()));
        assert(b.contains(a.last()));
        assert(b.to_set().contains(b.last()));
        assert(a.contains(b.last()));
        let i = b.index_of(a.last());
        let j = a.index_of(b.last());
        if a.last() != b.last() {
            assert(crate::text::text_lt(b[i], b.last()));
            assert(crate::text::text_lt(a[j], a.last()));
            crate::text::lemma_text_lt_transitive(a.last(), b.last(), a.last());
            crate::text::lemma_text_lt_irreflexive(a.last());
        }
        let x = a.last();
        lemma_ascending_unique(a);
        lemma_ascending_unique(b);
        assert forall|y: Seq<char>| a.drop_last().to_set().contains(y)
            == b.drop_last().to_set().contains(y) by {
            if a.drop_last().contains(y) {
                let k = a.drop_last().index_of(y);
                assert(a[k] == y && y != x);
                assert(a.to_set().contains(y));
                assert(b.contains(y));
                let m = b.index_of(y);
                assert(b.drop_last()[m] == y);
            }
            if b.drop_last().contains(y) {
                let k = b.drop_last().index_of(y);
                assert(b[k] == y && y != x);
                assert(b.to_set().contains(y));
                assert(a.contains(y));
                let m = a.index_of(y);
                assert(a.drop_last()[m] == y);
            }
        }
        assert(a.drop_last().to_set() =~= b.drop_last().to_set());
        lemma_ascending_determined(a.drop_last(), b.drop_last());
        assert(a =~= a.drop_last().push(x));
        assert(b =~= b.drop_last().push(x));
    }
}

/// Appending an item to a list adds it to the list's set.
pub proof fn lemma_push_to_set<A>(s: Seq<A>, x: A)
    ensures
        s.push(x).to_set() == s.to_set().insert(x),
{
    assert forall|y: A| s.push(x).to_set().contains(y) == s.to_set().insert(x).contains(y) by {
        if s.contains(y) {
            let k = s.index_of(y);
            assert(s.push(x)[k] == y);
        }
        if y == x {
            assert(s.push(x)[s.len() as int] == y);
        }
        if s.push(x).contains(y) && y != x {
            let k = s.push(x).index_of(y);
            assert(s[k] == y);
        }
    }
    assert(s.push(x).to_set() =~= s.to_set().insert(x));
}

/// Where a text goes in a list in ascending order: behind the last one that is
/// not above it.
pub open spec fn text_place(t: Seq<Seq<char>>, x: Seq<char>) -> int
    decreases t.len(),
{
    if t.len() > 0 && crate::text::text_lt(x, t.last()) {
        text_place(t.drop_last(), x)
    } else {
        t.len() as int
    }
}

/// Texts in ascending order; equal texts stay beside each other.
pub open spec fn sorted_texts(s: Seq<Seq<char>>) -> Seq<Seq<char>>
    decreases s.len(),
{
    if s.len() == 0 {
        s
    } else {
        let t = sorted_texts(s.drop_last());
        t.insert(text_place(t, s.last()), s.last())
    }
}

proof fn lemma_text_place(t: Seq<Seq<char>>, x: Seq<char>)
    ensures
        0 <= text_place(t, x) <= t.len(),
        forall|i: int|
            text_place(t, x) <= i < t.len() ==> crate::text::text_lt(x, #[trigger] t[i]),
        text_place(t, x) > 0 ==> !crate::text::text_lt(x, t[text_place(t, x) - 1]),
    decreases t.len(),
{
    if t.len() > 0 && crate::text::text_lt(x, t.last()) {
        lemma_text_place(t.drop_last(), x);
        assert forall|i: int| text_place(t, x) <= i < t.len() implies crate::text::text_lt(
            x,
            #[trigger] t[i],
        ) by {
            if i < t.len() - 1 {
                assert(t.drop_last()[i] == t[i]);
            }
        }
    }
}

/// Sorting puts texts in ascending order and keeps them.
pub proof fn sorting_keeps_the_texts(s: Seq<Seq<char>>)
    ensures
        forall|i: int, j: int|
            0 <= i < j < sorted_texts(s).len() ==> !crate::text::text_lt(
                #[trigger] sorted_texts(s)[j],
                #[trigger] sorted_texts(s)[i],
            ),
        sorted_texts(s).len() == s.len(),
        sorted_texts(s).to_set() == s.to_set(),
    decreases s.len(),
{
    if s.len() > 0 {
        let t = sorted_texts(s.drop_last());
        let x = s.last();
        let p = text_place(t, x);
        sorting_keeps_the_texts(s.drop_last());
        lemma_text_place(t, x);
        let r = t.insert(p, x);
        assert forall|i: int, j: int| 0 <= i < j < r.len() implies !crate::text::text_lt(
            #[trigger] r[j],
            #[trigger] r[i],
        ) by {
            if j == p {
                let last = t[p - 1];
                if i < p - 1 {
                    assert(!crate::text::text_lt(last, t[i]));
                    if crate::text::text_lt(x, t[i]) {
                        crate::text::lemma_text_lt_total(last, t[i]);
                        if last != t[i] {
                            crate::text::lemma_text_lt_transitive(x, t[i], last);
                        }
                    }
                }
            } else if i == p {
                assert(crate::text::text_lt(x, t[j - 1]));
                if crate::text::text_lt(t[j - 1], x) {
                    crate::text::lemma_text_lt_transitive(x, t[j - 1], x);
                    crate::text::lemma_text_lt_irreflexive(x);
                }
            } else {
                let a = if i < p {
                    i
                } else {
                    i - 1
                };
                let b = if j < p {
                    j
                } else {
                    j - 1
                };
                assert(r[i] == t[a] && r[j] == t[b]);
            }
        }
        crate::maps::lemma_insert_set(t, p, x);
        assert(s =~= s.drop_last().push(x));
        lemma_push_to_set(s.drop_last(), x);
    }
}

proof fn lemma_sorted_multiset(s: Seq<Seq<char>>)
    ensures
        sorted_texts(s).to_multiset() == s.to_multiset(),
    decreases s.len(),
{
    broadcast use vstd::seq_lib::group_to_multiset_ensures;

    if s.len() > 0 {
        let t = sorted_texts(s.drop_last());
        lemma_sorted_multiset(s.drop_last());
        lemma_text_place(t, s.last());
        vstd::seq_lib::to_multiset_insert(t, text_place(t, s.last()), s.last());
        assert(s =~= s.drop_last().push(s.last()));
    }
}

/// Sorting gives the same for every order of the same texts.
pub proof fn sorting_ignores_the_order(a: Seq<Seq<char>>, b: Seq<Seq<char>>)
    requires
        a.to_multiset() == b.to_multiset(),
    ensures
        sorted_texts(a) == sorted_texts(b),
{
    let leq = |x: Seq<char>, y: Seq<char>| !crate::text::text_lt(y, x);
    lemma_sorted_multiset(a);
    lemma_sorted_multiset(b);
    sorting_keeps_the_texts(a);
    sorting_keeps_the_texts(b);
    assert forall|x: Seq<char>| #[trigger] leq(x, x) by {
        crate::text::lemma_text_lt_irreflexive(x);
    }
    assert forall|x: Seq<char>, y: Seq<char>| #[trigger] leq(x, y) && #[trigger] leq(
        y,
        x,
    ) implies x == y by {
        crate::text::lemma_text_lt_total(x, y);
    }
    assert forall|x: Seq<char>, y: Seq<char>, z: Seq<char>| #[trigger] leq(x, y) && #[trigger] leq(
        y,
        z,
    ) implies leq(x, z) by {
        if crate::text::text_lt(z, x) {
            crate::text::lemma_text_lt_total(x, y);
            crate::text::lemma_text_lt_total(y, z);
            if x != y {
                crate::text::lemma_text_lt_transitive(z, x, y);
            }
        }
    }
    assert forall|x: Seq<char>, y: Seq<char>| #[trigger] leq(x, y) || #[trigger] leq(y, x) by {
        if crate::text::text_lt(x, y) && crate::text::text_lt(y, x) {
            crate::text::lemma_text_lt_transitive(x, y, x);
            crate::text::lemma_text_lt_irreflexive(x);
        }
    }
    assert forall|i: int, j: int| 0 <= i < j < sorted_texts(a).len() implies #[trigger] leq(
        sorted_texts(a)[i],
        sorted_texts(a)[j],
    ) by {}
    assert forall|i: int, j: int| 0 <= i < j < sorted_texts(b).len() implies #[trigger] leq(
        sorted_texts(b)[i],
        sorted_texts(b)[j],
    ) by {}
    vstd::seq_lib::lemma_sorted_unique(sorted_texts(a), sorted_texts(b), leq);
}

/// Sorts texts.
pub fn sort_texts(s: &Vec<String>) -> (r: Vec<String>)
    ensures
        texts(r@) == sorted_texts(texts(s@)),
{
    let ghost all = texts(s@);
    let mut out: Vec<String> = Vec::new();
    let mut i: usize = 0;
    assert(all.take(0) =~= Seq::<Seq<char>>::empty());
    assert(texts(out@) =~= Seq::<Seq<char>>::empty());
    while i < s.len()
        invariant
            i <= s.len(),
            all == texts(s@),
            texts(out@) == sorted_texts(all.take(i as int)),
        decreases s.len() - i,
    {
        proof {
            assert(all.take(i + 1).drop_last() =~= all.take(i as int));
            assert(all.take(i + 1).last() == s@[i as int]@);
        }
        let ghost t = texts(out@);
        let x = &s[i];
        let mut p: usize = out.len();
        assert(t.take(p as int) =~= t);
        while p > 0 && text_before(x.as_str(), out[p - 1].as_str())
            invariant
                p <= out.len(),
                t == texts(out@),
                text_place(t.take(p as int), x@) == text_place(t, x@),
            decreases p,
        {
            assert(t.take(p as int).drop_last() =~= t.take(p - 1));
            assert(t.take(p as int).last() == out@[p - 1]@);
            p -= 1;
        }
        assert(text_place(t.take(p as int), x@) == p) by {
            if p > 0 {
                assert(t.take(p as int).last() == out@[p - 1]@);
            }
        }
        out.insert(p, x.clone());
        assert(texts(out@) =~= t.insert(p as int, x@));
        i += 1;
    }
    assert(all.take(i as int) =~= all);
    out
}

/// Texts one after the other, with a separator between them.
pub open spec fn joined_texts(s: Seq<Seq<char>>, sep: Seq<char>) -> Seq<char>
    decreases s.len(),
{
    if s.len() == 0 {
        Seq::empty()
    } else if s.len() == 1 {
        s[0]
    } else {
        joined_texts(s.drop_last(), sep) + sep + s.last()
    }
}

/// The texts of a list, with a separator between them.
pub fn join(s: &Vec<String>, sep: &str) -> (r: String)
    ensures
        r@ == joined_texts(texts(s@), sep@),
{
    let ghost all = texts(s@);
    let mut out = "".to_owned();
    let mut i: usize = 0;
    proof {
        reveal_strlit("");
    }
    assert(out@ =~= joined_texts(all.take(0), sep@));
    while i < s.len()
        invariant
            i <= s.len(),
            all == texts(s@),
            out@ == joined_texts(all.take(i as int), sep@),
        decreases s.len() - i,
    {
        proof {
            assert(all.take(i + 1).drop_last() =~= all.take(i as int));
            assert(all.take(i + 1).last() == s@[i as int]@);
            assert(Seq::<char>::empty() + s@[i as int]@ =~= s@[i as int]@);
        }
        if i > 0 {
            out.push_str(sep);
        }
        out.push_str(s[i].as_str());
        i += 1;
    }
    assert(all.take(i as int) =~= all);
    out
}

/// Whether a list has a text.
pub fn lists(s: &[String], text: &str) -> (r: bool)
    ensures
        r == texts(s@).contains(text@),
{
    let ghost all = texts(s@);
    let mut i: usize = 0;
    while i < s.len()
        invariant
            i <= s.len(),
            all == texts(s@),
            forall|k: int| 0 <= k < i ==> #[trigger] all[k] != text@,
        decreases s.len() - i,
    {
        assert(all[i as int] == s@[i as int]@);
        if same_text(s[i].as_str(), text) {
            return true;
        }
        i += 1;
    }
    false
}

} // verus!

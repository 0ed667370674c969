//! Sets of process names and the lexicographic order in which they are
//! listed.
use vstd::prelude::*;
use crate::text::chars_of;

verus! {

broadcast use vstd::string::group_string_axioms;

/// Lexicographic order of character sequences by code point, the order of
/// `Ord for str` (UTF-8 byte order and code point order agree).
pub open spec fn chars_lt(a: Seq<char>, b: Seq<char>) -> bool
    decreases a.len(),
{
    if a.len() == 0 {
        b.len() > 0
    } else if b.len() == 0 {
        false
    } else if a[0] != b[0] {
        (a[0] as int) < (b[0] as int)
    } else {
        chars_lt(a.drop_first(), b.drop_first())
    }
}

/// `chars_lt` is a strict total order.
pub proof fn lemma_chars_lt_irreflexive(a: Seq<char>)
    ensures
        !chars_lt(a, a),
    decreases a.len(),
{
    if a.len() > 0 {
        lemma_chars_lt_irreflexive(a.drop_first());
    }
}

/// `chars_lt` is transitive.
pub proof fn lemma_chars_lt_transitive(a: Seq<char>, b: Seq<char>, c: Seq<char>)
    requires
        chars_lt(a, b),
        chars_lt(b, c),
    ensures
        chars_lt(a, c),
    decreases a.len(),
{
    if a.len() > 0 && b.len() > 0 && c.len() > 0 && a[0] == b[0] && b[0] == c[0] {
        lemma_chars_lt_transitive(a.drop_first(), b.drop_first(), c.drop_first());
    }
}

/// Any two different sequences are ordered one way or the other.
pub proof fn lemma_chars_lt_total(a: Seq<char>, b: Seq<char>)
    requires
        a != b,
    ensures
        chars_lt(a, b) || chars_lt(b, a),
    decreases a.len(),
{
    if a.len() > 0 && b.len() > 0 && a[0] == b[0] {
        if a.drop_first() == b.drop_first() {
            assert(a =~= seq![a[0]] + a.drop_first());
            assert(b =~= seq![b[0]] + b.drop_first());
        }
        lemma_chars_lt_total(a.drop_first(), b.drop_first());
    } else if a.len() > 0 && b.len() > 0 {
        let x = a[0];
        let y = b[0];
        assert(x != y);
        assert((x as int) != (y as int));
    } else if a.len() == 0 && b.len() == 0 {
        assert(a =~= b);
    }
}

/// `chars_lt` is asymmetric.
pub proof fn lemma_chars_lt_asymmetric(a: Seq<char>, b: Seq<char>)
    requires
        chars_lt(a, b),
    ensures
        !chars_lt(b, a),
{
    if chars_lt(b, a) {
        lemma_chars_lt_transitive(a, b, a);
        lemma_chars_lt_irreflexive(a);
    }
}

/// `a` is a proper prefix of `b`, or at the first position where they differ
/// `a` has the smaller code point.
pub open spec fn differs_first_below(a: Seq<char>, b: Seq<char>) -> bool {
    exists|k: int|
        0 <= k <= a.len() && k <= b.len() && #[trigger] a.take(k) == b.take(k) && ((k == a.len()
            && k < b.len()) || (k < a.len() && k < b.len() && (a[k] as int) < (b[k] as int)))
}

/// `chars_lt` is the lexicographic order: whatever the lengths, the first
/// differing position decides, and a proper prefix comes first.
pub proof fn lemma_chars_lt_first_difference(a: Seq<char>, b: Seq<char>)
    ensures
        chars_lt(a, b) <==> differs_first_below(a, b),
    decreases a.len(),
{
    if a.len() == 0 {
        assert(a.take(0) =~= b.take(0));
        if b.len() > 0 {
            assert(a.take(0) == b.take(0));
        }
    } else if b.len() == 0 {
        if differs_first_below(a, b) {
            let k = choose|k: int|
                0 <= k <= a.len() && k <= b.len() && #[trigger] a.take(k) == b.take(k) && ((k
                    == a.len() && k < b.len()) || (k < a.len() && k < b.len() && (a[k] as int) < (
                b[k] as int)));
            assert(false);
        }
    } else if a[0] != b[0] {
        assert(a.take(0) =~= b.take(0));
        if (a[0] as int) < (b[0] as int) {
            assert(a.take(0) == b.take(0));
        }
        if differs_first_below(a, b) {
            let k = choose|k: int|
                0 <= k <= a.len() && k <= b.len() && #[trigger] a.take(k) == b.take(k) && ((k
                    == a.len() && k < b.len()) || (k < a.len() && k < b.len() && (a[k] as int) < (
                b[k] as int)));
            if k > 0 {
                assert(a.take(k)[0] == b.take(k)[0]);
                assert(false);
            }
        }
    } else {
        let a1 = a.drop_first();
        let b1 = b.drop_first();
        lemma_chars_lt_first_difference(a1, b1);
        if differs_first_below(a1, b1) {
            let k = choose|k: int|
                0 <= k <= a1.len() && k <= b1.len() && #[trigger] a1.take(k) == b1.take(k) && ((k
                    == a1.len() && k < b1.len()) || (k < a1.len() && k < b1.len() && (a1[k] as int)
                < (b1[k] as int)));
            assert(a.take(k + 1) =~= seq![a[0]] + a1.take(k));
            assert(b.take(k + 1) =~= seq![b[0]] + b1.take(k));
            assert(a.take(k + 1) == b.take(k + 1));
            if k < a1.len() && k < b1.len() {
                assert(a[k + 1] == a1[k] && b[k + 1] == b1[k]);
            }
        }
        if differs_first_below(a, b) {
            let k = choose|k: int|
                0 <= k <= a.len() && k <= b.len() && #[trigger] a.take(k) == b.take(k) && ((k
                    == a.len() && k < b.len()) || (k < a.len() && k < b.len() && (a[k] as int) < (
                b[k] as int)));
            assert(k > 0);
            assert(a1.take(k - 1) =~= a.take(k).drop_first());
            assert(b1.take(k - 1) =~= b.take(k).drop_first());
            assert(a1.take(k - 1) == b1.take(k - 1));
            if k < a.len() && k < b.len() {
                assert(a[k] == a1[k - 1] && b[k] == b1[k - 1]);
            }
        }
    }
}

/// Whether `a` comes before `b` in lexicographic order.
pub fn chars_less(a: &Vec<char>, b: &Vec<char>) -> (r: bool)
    ensures
        r == chars_lt(a@, b@),
{
    let mut i: usize = 0;
    assert(a@.skip(0) =~= a@);
    assert(b@.skip(0) =~= b@);
    while i < a.len() && i < b.len() && a[i] == b[i]
        invariant
            0 <= i <= a.len(),
            i <= b.len(),
            chars_lt(a@, b@) == chars_lt(a@.skip(i as int), b@.skip(i as int)),
        decreases a.len() - i,
    {
        assert(a@.skip(i as int).drop_first() == a@.skip(i + 1));
        assert(b@.skip(i as int).drop_first() == b@.skip(i + 1));
        i += 1;
    }
    if i == a.len() {
        assert(a@.skip(i as int).len() == 0);
        i < b.len()
    } else if i == b.len() {
        assert(b@.skip(i as int).len() == 0);
        false
    } else {
        let x = a[i];
        let y = b[i];
        assert(a@.skip(i as int)[0] == x && b@.skip(i as int)[0] == y);
        assert(x != y);
        assert(chars_lt(a@, b@) == ((x as int) < (y as int)));
        x < y
    }
}

proof fn lemma_insert_contains<A>(s: Seq<A>, p: int, v: A, x: A)
    requires
        0 <= p <= s.len(),
    ensures
        s.insert(p, v).contains(x) <==> (s.contains(x) || x == v),
{
    let t = s.insert(p, v);
    if t.contains(x) {
        let q = choose|q: int| 0 <= q < t.len() && t[q] == x;
        if q < p {
            assert(s[q] == x);
        } else if q > p {
            assert(s[q - 1] == x);
        }
    }
    if s.contains(x) {
        let q = choose|q: int| 0 <= q < s.len() && s[q] == x;
        if q < p {
            assert(t[q] == x);
        } else {
            assert(t[q + 1] == x);
        }
    }
    if x == v {
        assert(t[p] == x);
    }
}

pub proof fn lemma_push_keeps_distinct<A>(s: Seq<A>, v: A)
    requires
        s.no_duplicates(),
        !s.contains(v),
    ensures
        s.push(v).no_duplicates(),
{
    assert forall|i: int, j: int|
        0 <= i < s.push(v).len() && 0 <= j < s.push(v).len() && i != j implies s.push(v)[i]
        != s.push(v)[j] by {
        if i < s.len() && j < s.len() {
        } else if i < s.len() {
            assert(s.contains(s[i]));
        } else {
            assert(s.contains(s[j]));
        }
    }
}

/// Adding one element to a sequence adds it to the sequence's set.
pub proof fn lemma_push_to_set<A>(s: Seq<A>, x: A)
    ensures
        s.push(x).to_set() == s.to_set().insert(x),
{
    assert forall|y: A| #[trigger] s.push(x).to_set().contains(y) <==> s.to_set().insert(x).contains(y) by {
        lemma_push_contains(s, x, y);
    }
    assert(s.push(x).to_set() =~= s.to_set().insert(x));
}

proof fn lemma_push_contains<A>(s: Seq<A>, v: A, x: A)
    ensures
        s.push(v).contains(x) <==> (s.contains(x) || x == v),
{
    lemma_insert_contains(s, s.len() as int, v, x);
    assert(s.insert(s.len() as int, v) =~= s.push(v));
}

/// Whether a sequence of names is in strictly increasing order.
pub open spec fn strictly_sorted(s: Seq<Seq<char>>) -> bool {
    forall|i: int, j: int| 0 <= i < j < s.len() ==> chars_lt(#[trigger] s[i], #[trigger] s[j])
}

/// The character views of a vector of strings.
pub open spec fn views(v: Seq<String>) -> Seq<Seq<char>> {
    v.map_values(|s: String| s@)
}

/// A set of process names (case is kept as given), with no name held twice.
pub struct NameSet {
    names: Vec<String>,
}

impl NameSet {
    /// The names in the order they were added.
    pub closed spec fn items(&self) -> Seq<Seq<char>> {
        views(self.names@)
    }

    #[verifier::type_invariant]
    closed spec fn wf(self) -> bool {
        self.items().no_duplicates()
    }

    /// The names as a set.
    pub closed spec fn set(&self) -> Set<Seq<char>> {
        self.items().to_set()
    }

    /// An empty set.
    pub fn new() -> (r: Self)
        ensures
            r@ == Set::<Seq<char>>::empty(),
    {
        let r = NameSet { names: Vec::new() };
        assert(r.items().to_set() =~= Set::<Seq<char>>::empty());
        r
    }

    /// Whether `name` is in the set (exact, case-sensitive comparison).
    pub fn contains(&self, name: &str) -> (r: bool)
        ensures
            r == self@.contains(name@),
    {
        let key = name.to_owned();
        for i in 0..self.names.len()
            invariant
                key@ == name@,
                forall|j: int| 0 <= j < i ==> self.items()[j] != name@,
        {
            if self.names[i] == key {
                assert(self.items().contains(self.items()[i as int]));
                return true;
            }
        }
        assert(!self.items().contains(name@)) by {
            if self.items().contains(name@) {
                let k = choose|k: int| 0 <= k < self.items().len() && self.items()[k] == name@;
                assert(self.items()[k] != name@);
            }
        }
        false
    }

    /// Adds `name` to the set.
    pub fn insert(&mut self, name: String)
        ensures
            final(self)@ == old(self)@.insert(name@),
    {
        proof {
            use_type_invariant(&*self);
        }
        if !self.contains(name.as_str()) {
            let ghost before = self.items();
            let ghost n = name@;
            proof {
                lemma_push_keeps_distinct(before, n);
                lemma_push_to_set(before, n);
            }
            let mut names = Vec::new();
            std::mem::swap(&mut names, &mut self.names);
            names.push(name);
            assert(views(names@) =~= before.push(n));
            self.names = names;
        } else {
            assert(self@.insert(name@) =~= self@);
        }
    }

    /// The number of names in the set.
    pub fn len(&self) -> (r: usize)
        ensures
            r == self@.len(),
    {
        proof {
            use_type_invariant(self);
            self.items().unique_seq_to_set();
        }
        self.names.len()
    }

    /// Whether the set is empty.
    pub fn is_empty(&self) -> (r: bool)
        ensures
            r == (self@.len() == 0),
    {
        self.len() == 0
    }

    /// The names in increasing lexicographic order (as
    /// `sort_unstable` orders strings).
    pub fn sorted(&self) -> (r: Vec<String>)
        ensures
            strictly_sorted(views(r@)),
            views(r@).to_set() == self@,
            r@.len() == self@.len(),
    {
        proof {
            use_type_invariant(self);
            self.items().unique_seq_to_set();
        }
        let n: usize = self.names.len();
        let mut out: Vec<String> = Vec::new();
        let mut keys: Vec<Vec<char>> = Vec::new();
        for i in 0..n
            invariant
                n == self.names.len(),
                self.items().no_duplicates(),
                views(out@) == keys@.map_values(|k: Vec<char>| k@),
                strictly_sorted(views(out@)),
                out@.len() == i,
                forall|x: Seq<char>|
                    #![trigger views(out@).contains(x)]
                    views(out@).contains(x) <==> self.items().take(i as int).contains(x),
        {
            let k = chars_of(self.names[i].as_str());
            let ghost ks = views(out@);
            let ghost item = self.items()[i as int];
            assert(k@ == item);
            assert(!ks.contains(item)) by {
                if ks.contains(item) {
                    let q = choose|q: int| 0 <= q < i && self.items().take(i as int)[q] == item;
                    assert(self.items()[q] == self.items()[i as int]);
                }
            }
            let mut p: usize = 0;
            while p < keys.len() && !chars_less(&k, &keys[p])
                invariant
                    0 <= p <= keys.len(),
                    keys@.len() == ks.len(),
                    ks == keys@.map_values(|kk: Vec<char>| kk@),
                    forall|q: int| 0 <= q < p ==> !chars_lt(k@, #[trigger] ks[q]),
                decreases keys.len() - p,
            {
                p += 1;
            }
            assert forall|q: int| 0 <= q < p implies chars_lt(#[trigger] ks[q], k@) by {
                assert(ks.contains(ks[q]));
                lemma_chars_lt_total(ks[q], k@);
            }
            assert forall|q: int| p <= q < ks.len() implies chars_lt(k@, #[trigger] ks[q]) by {
                if q > p {
                    lemma_chars_lt_transitive(k@, ks[p as int], ks[q]);
                }
            }
            let s = self.names[i].clone();
            out.insert(p, s);
            keys.insert(p, k);
            let ghost nks = views(out@);
            assert(nks == ks.insert(p as int, item));
            assert(nks == keys@.map_values(|kk: Vec<char>| kk@));
            assert(strictly_sorted(nks)) by {
                assert forall|a: int, b: int| 0 <= a < b < nks.len() implies chars_lt(
                    #[trigger] nks[a],
                    #[trigger] nks[b],
                ) by {
                    if a < p && b < p {
                        assert(nks[a] == ks[a] && nks[b] == ks[b]);
                    } else if a < p && b == p {
                    } else if a < p {
                        assert(nks[a] == ks[a] && nks[b] == ks[b - 1]);
                        lemma_chars_lt_transitive(ks[a], k@, ks[b - 1]);
                    } else if a == p {
                        assert(nks[b] == ks[b - 1]);
                    } else {
                        assert(nks[a] == ks[a - 1] && nks[b] == ks[b - 1]);
                    }
                }
            }
            assert(self.items().take(i + 1) == self.items().take(i as int).push(item));
            assert forall|x: Seq<char>| #![trigger nks.contains(x)]
                nks.contains(x) <==> self.items().take(i + 1).contains(x) by {
                lemma_insert_contains(ks, p as int, item, x);
                lemma_push_contains(self.items().take(i as int), item, x);
                assert(ks.contains(x) <==> self.items().take(i as int).contains(x));
            }
        }
        assert(self.items().take(n as int) == self.items());
        assert(views(out@).to_set() =~= self@);
        out
    }
}

impl Clone for NameSet {
    fn clone(&self) -> (r: Self)
        ensures
            r@ == self@,
    {
        proof {
            use_type_invariant(self);
        }
        let mut names: Vec<String> = Vec::new();
        for i in 0..self.names.len()
            invariant
                names@ == self.names@.take(i as int),
        {
            names.push(self.names[i].clone());
            assert(self.names@.take(i + 1) == self.names@.take(i as int).push(self.names@[i as int]));
        }
        assert(self.names@.take(self.names.len() as int) == self.names@);
        NameSet { names }
    }
}

impl View for NameSet {
    type V = Set<Seq<char>>;

    open spec fn view(&self) -> Set<Seq<char>> {
        self.set()
    }
}

} // verus!

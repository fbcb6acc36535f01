use crate::strings::chars_of;
use vstd::prelude::*;

verus! {

// ---------------------------------------------------------------------------
// The order of names
// ---------------------------------------------------------------------------

/// `a` comes before `b` in the order of `String`: character by character,
/// by code point, a proper prefix first.
pub open spec fn lex_lt(a: Seq<char>, b: Seq<char>) -> bool
    decreases a.len(),
{
    if b.len() == 0 {
        false
    } else if a.len() == 0 {
        true
    } else if a[0] != b[0] {
        a[0] < b[0]
    } else {
        lex_lt(a.drop_first(), b.drop_first())
    }
}

pub proof fn lemma_lex_irreflexive(a: Seq<char>)
    ensures
        !lex_lt(a, a),
    decreases a.len(),
{
    if a.len() > 0 {
        lemma_lex_irreflexive(a.drop_first());
    }
}

pub proof fn lemma_lex_asymmetric(a: Seq<char>, b: Seq<char>)
    ensures
        lex_lt(a, b) ==> !lex_lt(b, a),
    decreases a.len(),
{
    if a.len() > 0 && b.len() > 0 && a[0] == b[0] {
        lemma_lex_asymmetric(a.drop_first(), b.drop_first());
    }
}

pub proof fn lemma_lex_total(a: Seq<char>, b: Seq<char>)
    ensures
        a != b ==> lex_lt(a, b) || lex_lt(b, a),
    decreases a.len(),
{
    if a.len() > 0 && b.len() > 0 {
        if a[0] == b[0] {
            lemma_lex_total(a.drop_first(), b.drop_first());
            if a.drop_first() == b.drop_first() {
                assert(a =~= seq![a[0]] + a.drop_first());
                assert(b =~= seq![b[0]] + b.drop_first());
            }
        } else {
        }
    } else if a.len() == 0 && b.len() == 0 {
        assert(a =~= b);
    }
}

pub proof fn lemma_lex_transitive(a: Seq<char>, b: Seq<char>, c: Seq<char>)
    ensures
        lex_lt(a, b) && lex_lt(b, c) ==> lex_lt(a, c),
    decreases a.len(),
{
    if a.len() > 0 && b.len() > 0 && c.len() > 0 && a[0] == b[0] && b[0] == c[0] {
        lemma_lex_transitive(a.drop_first(), b.drop_first(), c.drop_first());
    }
}

/// Each name comes before every later one.
pub open spec fn strictly_sorted(s: Seq<Seq<char>>) -> bool {
    forall|i: int, j: int| 0 <= i < j < s.len() ==> lex_lt(#[trigger] s[i], #[trigger] s[j])
}

/// The texts of a sequence of strings.
pub open spec fn names_view(v: Seq<String>) -> Seq<Seq<char>> {
    v.map_values(|s: String| s@)
}

pub proof fn lemma_sorted_no_duplicates(s: Seq<Seq<char>>)
    requires
        strictly_sorted(s),
    ensures
        s.no_duplicates(),
{
    assert forall|i: int, j: int| 0 <= i < s.len() && 0 <= j < s.len() && i != j implies s[i]
        != s[j] by {
        lemma_lex_irreflexive(s[i]);
        if i < j {
            assert(lex_lt(s[i], s[j]));
        } else {
            assert(lex_lt(s[j], s[i]));
        }
    }
}

/// Whether `a` comes before `b`.
pub fn lex_less(a: &Vec<char>, b: &Vec<char>) -> (r: bool)
    ensures
        r == lex_lt(a@, b@),
{
    let mut i: usize = 0;
    proof {
        assert(a@.skip(0) =~= a@);
        assert(b@.skip(0) =~= b@);
    }
    loop
        invariant
            i <= a@.len(),
            i <= b@.len(),
            lex_lt(a@, b@) == lex_lt(a@.skip(i as int), b@.skip(i as int)),
        decreases a@.len() - i,
    {
        if i == b.len() {
            return false;
        }
        if i == a.len() {
            return true;
        }
        if a[i] != b[i] {
            return a[i] < b[i];
        }
        proof {
            assert(a@.skip(i as int).drop_first() =~= a@.skip(i + 1));
            assert(b@.skip(i as int).drop_first() =~= b@.skip(i + 1));
        }
        i = i + 1;
    }
}

/// The first position in `names` whose name does not come before `key`.
pub fn lower_bound(names: &Vec<String>, key: &Vec<char>) -> (p: usize)
    requires
        strictly_sorted(names_view(names@)),
    ensures
        p <= names@.len(),
        forall|q: int| 0 <= q < p ==> lex_lt(#[trigger] names_view(names@)[q], key@),
        p < names@.len() ==> !lex_lt(names_view(names@)[p as int], key@),
        names_view(names@).contains(key@) <==> (p < names@.len() && names_view(names@)[p as int]
            == key@),
{
    let ghost nv = names_view(names@);
    let n = names.len();
    let mut p: usize = 0;
    let mut done = false;
    while p < n && !done
        invariant
            n == names@.len(),
            nv == names_view(names@),
            p <= n,
            forall|q: int| 0 <= q < p ==> lex_lt(#[trigger] nv[q], key@),
            done ==> p < n && !lex_lt(nv[p as int], key@),
        decreases n - p + (if done { 0int } else { 1int }),
    {
        let cs = chars_of(names[p].as_str());
        assert(nv[p as int] == names@[p as int]@);
        if lex_less(&cs, key) {
            p = p + 1;
        } else {
            done = true;
        }
    }
    proof {
        if nv.contains(key@) {
            let q = choose|q: int| 0 <= q < nv.len() && nv[q] == key@;
            lemma_lex_irreflexive(key@);
            if q < p {
                assert(lex_lt(nv[q], key@));
            } else if q > p {
                assert(lex_lt(nv[p as int], nv[q]));
            }
        }
    }
    p
}

/// Inserting a name at its place keeps the names sorted.
pub proof fn lemma_insert_sorted(s: Seq<Seq<char>>, p: int, k: Seq<char>)
    requires
        strictly_sorted(s),
        0 <= p <= s.len(),
        forall|q: int| 0 <= q < p ==> lex_lt(#[trigger] s[q], k),
        p < s.len() ==> !lex_lt(s[p], k) && s[p] != k,
    ensures
        strictly_sorted(s.insert(p, k)),
{
    let t = s.insert(p, k);
    if p < s.len() {
        lemma_lex_total(s[p], k);
    }
    assert forall|i: int, j: int| 0 <= i < j < t.len() implies lex_lt(#[trigger] t[i], #[trigger] t[j]) by {
        if j < p {
        } else if j == p {
        } else if i < p {
            lemma_lex_transitive(s[i], k, s[j - 1]);
            if j - 1 > p {
                lemma_lex_transitive(k, s[p], s[j - 1]);
            }
        } else if i == p {
            if j - 1 > p {
                lemma_lex_transitive(k, s[p], s[j - 1]);
            }
        } else {
        }
    }
}

// ---------------------------------------------------------------------------
// Sets of names
// ---------------------------------------------------------------------------

/// A set of names, kept in the order of `lex_lt` without repetitions.
#[derive(Debug, PartialEq, Eq)]
pub struct StrSet {
    names: Vec<String>,
}

impl StrSet {
    #[verifier::type_invariant]
    spec fn sorted(self) -> bool {
        strictly_sorted(names_view(self.names@))
    }

    /// The names, in increasing order.
    pub closed spec fn ordered(self) -> Seq<Seq<char>> {
        names_view(self.names@)
    }
}

impl View for StrSet {
    type V = Set<Seq<char>>;

    closed spec fn view(&self) -> Set<Seq<char>> {
        names_view(self.names@).to_set()
    }
}

impl StrSet {
    pub fn new() -> (s: Self)
        ensures
            s@ == Set::<Seq<char>>::empty(),
    {
        let s = StrSet { names: Vec::new() };
        proof {
            assert(names_view(s.names@).to_set() =~= Set::<Seq<char>>::empty());
        }
        s
    }

    /// The number of names.
    pub fn len(&self) -> (n: usize)
        ensures
            n == self@.len(),
    {
        proof {
            use_type_invariant(self);
            lemma_sorted_no_duplicates(names_view(self.names@));
            names_view(self.names@).unique_seq_to_set();
        }
        self.names.len()
    }

    /// Whether the set holds no name.
    pub fn is_empty(&self) -> (b: bool)
        ensures
            b == (self@.len() == 0),
    {
        self.len() == 0
    }

    /// The names, in increasing order.
    pub fn names(&self) -> (v: Vec<String>)
        ensures
            names_view(v@) == self.ordered(),
            strictly_sorted(names_view(v@)),
            names_view(v@).to_set() == self@,
    {
        proof {
            use_type_invariant(self);
        }
        let mut v: Vec<String> = Vec::new();
        let n = self.names.len();
        for i in 0..n
            invariant
                n == self.names@.len(),
                names_view(v@) == names_view(self.names@).take(i as int),
        {
            let s = self.names[i].clone();
            let ghost before = v@;
            v.push(s);
            proof {
                assert(names_view(v@) =~= names_view(before).push(s@));
                assert(names_view(self.names@).take(i + 1) =~= names_view(self.names@).take(
                    i as int,
                ).push(s@));
            }
        }
        proof {
            assert(names_view(self.names@).take(n as int) =~= names_view(self.names@));
        }
        v
    }

    /// Whether `key` is in the set.
    pub fn contains(&self, key: &str) -> (b: bool)
        ensures
            b == self@.contains(key@),
    {
        proof {
            use_type_invariant(self);
        }
        let k = chars_of(key);
        let p = lower_bound(&self.names, &k);
        if p < self.names.len() {
            let cs = chars_of(self.names[p].as_str());
            let found = crate::strings::range_equals(&cs, 0, cs.len(), &k);
            proof {
                assert(cs@.subrange(0, cs@.len() as int) =~= cs@);
                assert(names_view(self.names@)[p as int] == self.names@[p as int]@);
            }
            found
        } else {
            false
        }
    }

    /// Adds `key`; true when it was not there before.
    pub fn insert(&mut self, key: String) -> (added: bool)
        ensures
            final(self)@ == old(self)@.insert(key@),
            added == !old(self)@.contains(key@),
    {
        proof {
            use_type_invariant(&*self);
        }
        let k = chars_of(key.as_str());
        let mut names: Vec<String> = Vec::new();
        std::mem::swap(&mut names, &mut self.names);
        let ghost old_names = names_view(names@);
        let p = lower_bound(&names, &k);
        if p < names.len() {
            let cs = chars_of(names[p].as_str());
            assert(cs@.subrange(0, cs@.len() as int) =~= cs@);
            assert(old_names[p as int] == names@[p as int]@);
            if crate::strings::range_equals(&cs, 0, cs.len(), &k) {
                std::mem::swap(&mut names, &mut self.names);
                proof {
                    assert(old_names.to_set().insert(key@) =~= old_names.to_set());
                }
                return false;
            }
        }
        names.insert(p, key);
        proof {
            lemma_insert_sorted(old_names, p as int, k@);
            assert(names_view(names@) =~= old_names.insert(p as int, k@));
            assert(names_view(names@).to_set() =~= old_names.to_set().insert(key@)) by {
                assert forall|x: Seq<char>| names_view(names@).contains(x) implies old_names.to_set().insert(key@).contains(x) by {
                    let q = choose|q: int| 0 <= q < names_view(names@).len() && names_view(names@)[q] == x;
                    if q < p {
                        assert(old_names[q] == x);
                    } else if q > p {
                        assert(old_names[q - 1] == x);
                    }
                }
                assert forall|x: Seq<char>| old_names.to_set().insert(key@).contains(x) implies names_view(names@).contains(x) by {
                    if x == key@ {
                        assert(names_view(names@)[p as int] == x);
                    } else {
                        let q = choose|q: int| 0 <= q < old_names.len() && old_names[q] == x;
                        if q < p {
                            assert(names_view(names@)[q] == x);
                        } else {
                            assert(names_view(names@)[q + 1] == x);
                        }
                    }
                }
            }
        }
        self.names = names;
        true
    }
}

impl Clone for StrSet {
    fn clone(&self) -> (r: Self)
        ensures
            r@ == self@,
            r.ordered() == self.ordered(),
    {
        proof {
            use_type_invariant(self);
        }
        let mut names: Vec<String> = Vec::new();
        let n = self.names.len();
        for i in 0..n
            invariant
                n == self.names@.len(),
                names_view(names@) == names_view(self.names@).take(i as int),
        {
            let s = self.names[i].clone();
            let ghost before = names@;
            names.push(s);
            proof {
                assert(names_view(names@) =~= names_view(before).push(s@));
                assert(names_view(self.names@).take(i + 1) =~= names_view(self.names@).take(
                    i as int,
                ).push(s@));
            }
        }
        proof {
            assert(names_view(self.names@).take(n as int) =~= names_view(self.names@));
        }
        StrSet { names }
    }
}

impl Default for StrSet {
    fn default() -> (s: Self)
        ensures
            s@ == Set::<Seq<char>>::empty(),
    {
        StrSet::new()
    }
}

} // verus!

//! The server registry: the distinct WHOIS server names in sorted order, a
//! server's id being its position.

use vstd::prelude::*;
use vstd::string::*;

verus! {

/// `a` sorts strictly before `b`, comparing character by character, a proper
/// prefix first (the order of `String`).
pub open spec fn lex_lt(a: Seq<char>, b: Seq<char>) -> bool
    decreases a.len(),
{
    if a.len() == 0 {
        b.len() > 0
    } else if b.len() == 0 {
        false
    } else if a[0] != b[0] {
        a[0] < b[0]
    } else {
        lex_lt(a.drop_first(), b.drop_first())
    }
}

pub proof fn lemma_lex_irreflexive(a: Seq<char>)
    ensures
        !lex_lt(a, a),
    decreases a.len(),
{
    if a.len() > 0 {
        lemma_lex_irreflexive(a.drop_first());
    }
}

pub proof fn lemma_lex_transitive(a: Seq<char>, b: Seq<char>, c: Seq<char>)
    requires
        lex_lt(a, b),
        lex_lt(b, c),
    ensures
        lex_lt(a, c),
    decreases a.len(),
{
    if a.len() > 0 && b.len() > 0 && c.len() > 0 && a[0] == b[0] && b[0] == c[0] {
        lemma_lex_transitive(a.drop_first(), b.drop_first(), c.drop_first());
    }
}

pub proof fn lemma_lex_total(a: Seq<char>, b: Seq<char>)
    requires
        a != b,
    ensures
        lex_lt(a, b) || lex_lt(b, a),
    decreases a.len(),
{
    if a.len() > 0 && b.len() > 0 && a[0] == b[0] {
        if a.drop_first() == b.drop_first() {
            assert(a =~= seq![a[0]] + a.drop_first());
            assert(b =~= seq![b[0]] + b.drop_first());
        }
        lemma_lex_total(a.drop_first(), b.drop_first());
    } else if a.len() == 0 && b.len() == 0 {
        assert(a =~= b);
    }
}

/// Compares two strings in the order of `lex_lt`.
pub fn str_lt(a: &str, b: &str) -> (r: bool)
    ensures
        r == lex_lt(a@, b@),
{
    let n = a.unicode_len();
    let m = b.unicode_len();
    let mut i: usize = 0;
    proof {
        assert(a@.subrange(0, n as int) =~= a@);
        assert(b@.subrange(0, m as int) =~= b@);
    }
    while i < n && i < m
        invariant
            n == a@.len(),
            m == b@.len(),
            i <= n && i <= m,
            lex_lt(a@, b@) == lex_lt(a@.subrange(i as int, n as int), b@.subrange(i as int, m as int)),
        decreases n - i,
    {
        let x = a.get_char(i);
        let y = b.get_char(i);
        proof {
            let sa = a@.subrange(i as int, n as int);
            let sb = b@.subrange(i as int, m as int);
            assert(sa.drop_first() =~= a@.subrange(i + 1, n as int));
            assert(sb.drop_first() =~= b@.subrange(i + 1, m as int));
            assert(sa[0] == x && sb[0] == y);
        }
        if x != y {
            return x < y;
        }
        i += 1;
    }
    i == n && i < m
}

/// Whether two strings are equal.
pub fn str_eq(a: &str, b: &str) -> (r: bool)
    ensures
        r == (a@ == b@),
{
    let r = !str_lt(a, b) && !str_lt(b, a);
    proof {
        if a@ != b@ {
            lemma_lex_total(a@, b@);
        } else {
            lemma_lex_irreflexive(a@);
        }
    }
    r
}

/// The names of `names`, sorted strictly in the order of `lex_lt`.
pub open spec fn is_sorted_distinct(names: Seq<Seq<char>>) -> bool {
    forall|i: int, j: int| 0 <= i < j < names.len() ==> lex_lt(#[trigger] names[i], #[trigger] names[j])
}

/// The id of the server named `s` among `names`: its position.
pub open spec fn name_id(names: Seq<Seq<char>>, s: Seq<char>) -> Option<u32> {
    if names.contains(s) {
        Some((choose|i: int| 0 <= i < names.len() && names[i] == s) as u32)
    } else {
        None
    }
}

/// In a sorted distinct sequence a name stands at one position only.
pub proof fn lemma_name_position(names: Seq<Seq<char>>, i: int)
    requires
        is_sorted_distinct(names),
        0 <= i < names.len(),
        names.len() <= u32::MAX,
    ensures
        name_id(names, names[i]) == Some(i as u32),
{
    assert(names.contains(names[i]));
    let j = choose|j: int| 0 <= j < names.len() && names[j] == names[i];
    if j < i {
        assert(lex_lt(names[j], names[i]));
        lemma_lex_irreflexive(names[i]);
    } else if j > i {
        assert(lex_lt(names[i], names[j]));
        lemma_lex_irreflexive(names[i]);
    }
}

/// Two sorted distinct sequences with the same names are the same sequence.
pub proof fn lemma_sorted_unique(a: Seq<Seq<char>>, b: Seq<Seq<char>>)
    requires
        is_sorted_distinct(a),
        is_sorted_distinct(b),
        forall|s: Seq<char>| a.contains(s) <==> b.contains(s),
    ensures
        a == b,
    decreases a.len(),
{
    if a.len() == 0 {
        if b.len() > 0 {
            assert(b.contains(b[0]));
        }
        assert(a =~= b);
    } else {
        assert(a.contains(a[0]));
        assert(b.len() > 0);
        assert(b.contains(b[0]));
        let j = choose|j: int| 0 <= j < b.len() && b[j] == a[0];
        let k = choose|k: int| 0 <= k < a.len() && a[k] == b[0];
        if j > 0 && k > 0 {
            assert(lex_lt(b[0], b[j]));
            assert(lex_lt(a[0], a[k]));
            lemma_lex_transitive(a[0], b[0], a[0]);
            lemma_lex_irreflexive(a[0]);
        } else if j > 0 {
            assert(lex_lt(b[0], b[j]));
            lemma_lex_irreflexive(a[0]);
        } else if k > 0 {
            assert(lex_lt(a[0], a[k]));
            lemma_lex_irreflexive(b[0]);
        }
        assert(a[0] == b[0]);
        let ta = a.drop_first();
        let tb = b.drop_first();
        assert forall|s: Seq<char>| ta.contains(s) <==> tb.contains(s) by {
            if ta.contains(s) {
                let i = choose|i: int| 0 <= i < ta.len() && ta[i] == s;
                assert(a[i + 1] == s);
                assert(lex_lt(a[0], a[i + 1]));
                assert(a.contains(s));
                let m = choose|m: int| 0 <= m < b.len() && b[m] == s;
                if m == 0 {
                    lemma_lex_irreflexive(s);
                }
                assert(tb[m - 1] == s);
            }
            if tb.contains(s) {
                let i = choose|i: int| 0 <= i < tb.len() && tb[i] == s;
                assert(b[i + 1] == s);
                assert(lex_lt(b[0], b[i + 1]));
                assert(b.contains(s));
                let m = choose|m: int| 0 <= m < a.len() && a[m] == s;
                if m == 0 {
                    lemma_lex_irreflexive(s);
                }
                assert(ta[m - 1] == s);
            }
        }
        lemma_sorted_unique(ta, tb);
        assert(a =~= seq![a[0]] + ta);
        assert(b =~= seq![b[0]] + tb);
    }
}

/// The WHOIS server names, distinct and sorted; a server's id is its position.
pub struct ServerRegistry {
    names: Vec<String>,
}

impl ServerRegistry {
    /// The server names, by id.
    pub closed spec fn view(&self) -> Seq<Seq<char>> {
        self.names.deep_view()
    }

    #[verifier::type_invariant]
    spec fn inv(&self) -> bool {
        &&& is_sorted_distinct(self.names.deep_view())
        &&& self.names@.len() <= u32::MAX
    }

    /// The registry of the distinct names among `names`, sorted.
    pub fn from_names(names: &Vec<String>) -> (r: ServerRegistry)
        requires
            names@.len() <= u32::MAX,
        ensures
            is_sorted_distinct(r@),
            forall|s: Seq<char>| r@.contains(s) <==> names.deep_view().contains(s),
    {
        let mut sorted: Vec<String> = Vec::new();
        let mut i: usize = 0;
        while i < names.len()
            invariant
                i <= names.len() <= u32::MAX,
                sorted@.len() <= i,
                is_sorted_distinct(sorted.deep_view()),
                forall|s: Seq<char>|
                    sorted.deep_view().contains(s) <==> names.deep_view().subrange(0, i as int).contains(s),
            decreases names.len() - i,
        {
            let name = &names[i];
            let ghost old_sorted = sorted.deep_view();
            let mut p: usize = 0;
            while p < sorted.len() && str_lt(sorted[p].as_str(), name.as_str())
                invariant
                    p <= sorted@.len(),
                    sorted.deep_view() == old_sorted,
                    forall|k: int| 0 <= k < p ==> lex_lt(#[trigger] old_sorted[k], name@),
                decreases sorted@.len() - p,
            {
                p += 1;
            }
            let present = p < sorted.len() && sorted[p] == *name;
            proof {
                let prev = names.deep_view().subrange(0, i as int);
                let next = names.deep_view().subrange(0, i + 1);
                assert(next =~= prev.push(name@));
                assert forall|s: Seq<char>| next.contains(s) <==> (prev.contains(s) || s == name@) by {
                    if next.contains(s) {
                        let k = choose|k: int| 0 <= k < next.len() && next[k] == s;
                        if k < i {
                            assert(prev[k] == s);
                        }
                    }
                    if prev.contains(s) {
                        let k = choose|k: int| 0 <= k < prev.len() && prev[k] == s;
                        assert(next[k] == s);
                    }
                    if s == name@ {
                        assert(next[i as int] == s);
                    }
                }
            }
            if !present {
                proof {
                    if p < old_sorted.len() {
                        lemma_lex_total(old_sorted[p as int], name@);
                        assert(lex_lt(name@, old_sorted[p as int]));
                    }
                }
                sorted.insert(p, name.clone());
                proof {
                    let ns = sorted.deep_view();
                    assert(ns =~= old_sorted.insert(p as int, name@));
                    assert forall|b: int| p < b < ns.len() implies lex_lt(name@, #[trigger] ns[b]) by {
                        if b > p + 1 {
                            lemma_lex_transitive(name@, old_sorted[p as int], old_sorted[b - 1]);
                        }
                    }
                    assert forall|a: int, b: int| 0 <= a < b < ns.len() implies lex_lt(#[trigger] ns[a], #[trigger] ns[b]) by {
                        if a < p && b > p {
                            assert(lex_lt(name@, ns[b]));
                            lemma_lex_transitive(old_sorted[a], name@, ns[b]);
                        }
                    }
                    assert forall|s: Seq<char>| ns.contains(s) <==> (old_sorted.contains(s) || s == name@) by {
                        if ns.contains(s) {
                            let k = choose|k: int| 0 <= k < ns.len() && ns[k] == s;
                            if k < p {
                                assert(old_sorted[k] == s);
                            } else if k > p {
                                assert(old_sorted[k - 1] == s);
                            }
                        }
                        if old_sorted.contains(s) {
                            let k = choose|k: int| 0 <= k < old_sorted.len() && old_sorted[k] == s;
                            if k < p {
                                assert(ns[k] == s);
                            } else {
                                assert(ns[k + 1] == s);
                            }
                        }
                        if s == name@ {
                            assert(ns[p as int] == s);
                        }
                    }
                }
            } else {
                proof {
                    assert(old_sorted[p as int] == name@);
                }
            }
            i += 1;
        }
        proof {
            assert(names.deep_view().subrange(0, names@.len() as int) =~= names.deep_view());
        }
        ServerRegistry { names: sorted }
    }

    /// The number of servers.
    pub fn len(&self) -> (r: usize)
        ensures
            r == self@.len(),
            r <= u32::MAX,
    {
        proof {
            use_type_invariant(self);
        }
        self.names.len()
    }

    /// The id of the server named `name`; none when there is no such server.
    pub fn id_of(&self, name: &str) -> (r: Option<u32>)
        ensures
            match r {
                Some(id) => id < self@.len() && self@[id as int] == name@,
                None => !self@.contains(name@),
            },
            r == name_id(self@, name@),
    {
        proof {
            use_type_invariant(self);
        }
        let mut k: usize = 0;
        while k < self.names.len()
            invariant
                k <= self.names@.len() <= u32::MAX,
                forall|j: int| 0 <= j < k ==> (#[trigger] self@[j]) != name@,
            decreases self.names@.len() - k,
        {
            let s = self.names[k].as_str();
            if !str_lt(s, name) && !str_lt(name, s) {
                proof {
                    if s@ != name@ {
                        lemma_lex_total(s@, name@);
                    }
                    use_type_invariant(self);
                    lemma_name_position(self@, k as int);
                }
                return Some(k as u32);
            }
            proof {
                lemma_lex_irreflexive(s@);
            }
            k += 1;
        }
        None
    }

    /// The name of the server with id `id`; none when there is no such server.
    pub fn name_of(&self, id: u32) -> (r: Option<&String>)
        ensures
            match r {
                Some(s) => id < self@.len() && s@ == self@[id as int],
                None => id >= self@.len(),
            },
    {
        if (id as usize) < self.names.len() {
            Some(&self.names[id as usize])
        } else {
            None
        }
    }
}

} // verus!

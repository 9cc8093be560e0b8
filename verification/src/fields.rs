//! The fields of an entry: a map from field names to values, each name once.
use vstd::prelude::*;
use crate::text::{
    lemma_lex_asymmetric, lemma_lex_irreflexive, lemma_lex_total, lemma_lex_transitive, lex_lt,
    str_eq, str_lt, views,
};

verus! {

/// Name and value of each field, as character sequences.
pub open spec fn pair_views(v: Seq<(String, String)>) -> Seq<(Seq<char>, Seq<char>)> {
    v.map_values(|p: (String, String)| (p.0@, p.1@))
}

/// The map that a list of pairs stands for, a later pair overriding an
/// earlier one of the same name.
pub open spec fn map_of(s: Seq<(Seq<char>, Seq<char>)>) -> Map<Seq<char>, Seq<char>>
    decreases s.len(),
{
    if s.len() == 0 {
        Map::empty()
    } else {
        map_of(s.drop_last()).insert(s.last().0, s.last().1)
    }
}

/// No two pairs share a name.
pub open spec fn names_distinct(s: Seq<(Seq<char>, Seq<char>)>) -> bool {
    forall|i: int, j: int| 0 <= i < j < s.len() ==> s[i].0 != s[j].0
}

/// Each element comes before the next one in the order of strings.
pub open spec fn strictly_sorted(s: Seq<Seq<char>>) -> bool {
    forall|a: int, b: int| 0 <= a < b < s.len() ==> lex_lt(s[a], s[b])
}

/// A list of names in strictly increasing order is determined by the names
/// it holds: two such lists with the same names are equal.
pub proof fn lemma_sorted_names_unique(a: Seq<Seq<char>>, b: Seq<Seq<char>>)
    requires
        strictly_sorted(a),
        strictly_sorted(b),
        forall|k: Seq<char>| a.contains(k) <==> b.contains(k),
    ensures
        a == b,
    decreases a.len(),
{
    if a.len() == 0 {
        if b.len() > 0 {
            assert(b.contains(b[0]));
        }
        assert(a =~= b);
    } else {
        assert(a.contains(a[0]));
        assert(b.len() > 0);
        assert(b.contains(b[0]));
        let k = choose|k: int| 0 <= k < b.len() && b[k] == a[0];
        let m = choose|m: int| 0 <= m < a.len() && a[m] == b[0];
        if k > 0 && m > 0 {
            lemma_lex_asymmetric(a[0], b[0]);
        }
        if k == 0 && m > 0 {
            lemma_lex_irreflexive(a[0]);
        }
        if m == 0 && k > 0 {
            lemma_lex_irreflexive(b[0]);
        }
        assert(a[0] == b[0]);
        let a1 = a.drop_first();
        let b1 = b.drop_first();
        assert forall|x: Seq<char>| a1.contains(x) <==> b1.contains(x) by {
            if a1.contains(x) {
                let i = choose|i: int| 0 <= i < a1.len() && a1[i] == x;
                assert(a.contains(a[i + 1]));
                let j = choose|j: int| 0 <= j < b.len() && b[j] == x;
                if j == 0 {
                    lemma_lex_irreflexive(x);
                }
                assert(b1[j - 1] == x);
            }
            if b1.contains(x) {
                let j = choose|j: int| 0 <= j < b1.len() && b1[j] == x;
                assert(b.contains(b[j + 1]));
                let i = choose|i: int| 0 <= i < a.len() && a[i] == x;
                if i == 0 {
                    lemma_lex_irreflexive(x);
                }
                assert(a1[i - 1] == x);
            }
        }
        lemma_sorted_names_unique(a1, b1);
        assert(a =~= seq![a[0]] + a1);
        assert(b =~= seq![b[0]] + b1);
    }
}

proof fn lemma_map_of_dom(s: Seq<(Seq<char>, Seq<char>)>, k: Seq<char>)
    ensures
        map_of(s).dom().contains(k) <==> exists|i: int| 0 <= i < s.len() && s[i].0 == k,
    decreases s.len(),
{
    if s.len() > 0 {
        lemma_map_of_dom(s.drop_last(), k);
        if map_of(s).dom().contains(k) && k != s.last().0 {
            let i = choose|i: int| 0 <= i < s.drop_last().len() && s.drop_last()[i].0 == k;
            assert(s[i].0 == k);
        }
        if exists|i: int| 0 <= i < s.len() && s[i].0 == k {
            let i = choose|i: int| 0 <= i < s.len() && s[i].0 == k;
            if i < s.len() - 1 {
                assert(s.drop_last()[i].0 == k);
            }
        }
    }
}

proof fn lemma_map_of_finite(s: Seq<(Seq<char>, Seq<char>)>)
    ensures
        map_of(s).dom().finite(),
        names_distinct(s) ==> map_of(s).dom().len() == s.len(),
    decreases s.len(),
{
    if s.len() > 0 {
        lemma_map_of_finite(s.drop_last());
        if names_distinct(s) {
            assert(names_distinct(s.drop_last()));
            lemma_map_of_dom(s.drop_last(), s.last().0);
            assert(!map_of(s.drop_last()).dom().contains(s.last().0));
        }
    }
}

proof fn lemma_map_of_index(s: Seq<(Seq<char>, Seq<char>)>, i: int)
    requires
        names_distinct(s),
        0 <= i < s.len(),
    ensures
        map_of(s).dom().contains(s[i].0),
        map_of(s)[s[i].0] == s[i].1,
    decreases s.len(),
{
    if i < s.len() - 1 {
        assert(names_distinct(s.drop_last()));
        assert(s.drop_last()[i] == s[i]);
        lemma_map_of_index(s.drop_last(), i);
        assert(s[i].0 != s.last().0);
    }
}

proof fn lemma_map_of_update(s: Seq<(Seq<char>, Seq<char>)>, i: int, v: Seq<char>)
    requires
        names_distinct(s),
        0 <= i < s.len(),
    ensures
        map_of(s.update(i, (s[i].0, v))) == map_of(s).insert(s[i].0, v),
    decreases s.len(),
{
    let t = s.update(i, (s[i].0, v));
    if i == s.len() - 1 {
        assert(t.drop_last() =~= s.drop_last());
        assert(map_of(t) =~= map_of(s).insert(s[i].0, v));
    } else {
        assert(names_distinct(s.drop_last()));
        assert(s.drop_last()[i] == s[i]);
        lemma_map_of_update(s.drop_last(), i, v);
        assert(t.drop_last() =~= s.drop_last().update(i, (s[i].0, v)));
        assert(s[i].0 != s.last().0);
        assert(map_of(t) =~= map_of(s).insert(s[i].0, v));
    }
}

/// A map from field names to values.
pub struct FieldMap {
    entries: Vec<(String, String)>,
}

impl View for FieldMap {
    type V = Map<Seq<char>, Seq<char>>;

    closed spec fn view(&self) -> Map<Seq<char>, Seq<char>> {
        map_of(pair_views(self.entries@))
    }
}

impl FieldMap {
    #[verifier::type_invariant]
    spec fn names_once(&self) -> bool {
        names_distinct(pair_views(self.entries@))
    }

    /// The map with no field.
    pub fn new() -> (m: FieldMap)
        ensures
            m@ == Map::<Seq<char>, Seq<char>>::empty(),
    {
        let m = FieldMap { entries: Vec::new() };
        assert(pair_views(m.entries@).len() == 0);
        m
    }

    /// Where the field `name` is stored, if it is there.
    fn position(&self, name: &str) -> (r: Option<usize>)
        ensures
            r is Some <==> self@.dom().contains(name@),
            r matches Some(i) ==> i < self.entries@.len() && pair_views(self.entries@)[i as int]
                == (name@, self@[name@]),
    {
        proof {
            use_type_invariant(self);
        }
        let ghost s = pair_views(self.entries@);
        let mut i: usize = 0;
        while i < self.entries.len()
            invariant
                s == pair_views(self.entries@),
                names_distinct(s),
                i <= self.entries@.len(),
                forall|j: int| 0 <= j < i ==> s[j].0 != name@,
            decreases self.entries.len() - i,
        {
            if str_eq(self.entries[i].0.as_str(), name) {
                proof {
                    lemma_map_of_index(s, i as int);
                }
                return Some(i);
            }
            i += 1;
        }
        proof {
            lemma_map_of_dom(s, name@);
        }
        None
    }

    /// The value of the field `name`, if the map holds it.
    pub fn get(&self, name: &str) -> (r: Option<&String>)
        ensures
            r is Some <==> self@.dom().contains(name@),
            r matches Some(v) ==> v@ == self@[name@],
    {
        match self.position(name) {
            Some(i) => Some(&self.entries[i].1),
            None => None,
        }
    }

    /// Sets the field `name` to `value`, adding the field where it is absent.
    pub fn insert(&mut self, name: String, value: String)
        ensures
            final(self)@ == old(self)@.insert(name@, value@),
    {
        proof {
            use_type_invariant(&*self);
        }
        let ghost s = pair_views(self.entries@);
        let found = self.position(name.as_str());
        let mut entries: Vec<(String, String)> = Vec::new();
        std::mem::swap(&mut entries, &mut self.entries);
        match found {
            Some(i) => {
                proof {
                    lemma_map_of_update(s, i as int, value@);
                }
                let ghost t = s.update(i as int, (s[i as int].0, value@));
                entries.set(i, (name, value));
                assert(pair_views(entries@) =~= t);
                assert(forall|j: int| 0 <= j < t.len() ==> #[trigger] t[j].0 == s[j].0);
                assert(names_distinct(t));
            },
            None => {
                proof {
                    lemma_map_of_dom(s, name@);
                }
                entries.push((name, value));
                assert(pair_views(entries@).drop_last() =~= s);
                assert(forall|j: int| 0 <= j < s.len() ==> #[trigger] s[j].0 != name@);
                let ghost u = pair_views(entries@);
                assert(u =~= s.push((name@, value@)));
                assert forall|a: int, b: int| 0 <= a < b < u.len() implies u[a].0 != u[b].0 by {
                    if b == s.len() {
                        assert(u[a] == s[a]);
                    } else {
                        assert(u[a] == s[a] && u[b] == s[b]);
                    }
                }
            },
        }
        assert(names_distinct(pair_views(entries@)));
        self.entries = entries;
    }

    /// The number of fields.
    pub fn len(&self) -> (n: usize)
        ensures
            self@.dom().finite(),
            n == self@.dom().len(),
    {
        proof {
            use_type_invariant(self);
            lemma_map_of_finite(pair_views(self.entries@));
        }
        self.entries.len()
    }

    /// The names of the fields, each once, in the order of strings.
    pub fn sorted_names(&self) -> (res: Vec<String>)
        ensures
            strictly_sorted(views(res@)),
            forall|k: Seq<char>| views(res@).contains(k) <==> self@.dom().contains(k),
    {
        proof {
            use_type_invariant(self);
        }
        let ghost s = pair_views(self.entries@);
        let mut res: Vec<String> = Vec::new();
        let n = self.entries.len();
        let mut i: usize = 0;
        while i < n
            invariant
                s == pair_views(self.entries@),
                names_distinct(s),
                n == s.len(),
                i <= n,
                strictly_sorted(views(res@)),
                forall|k: Seq<char>|
                    views(res@).contains(k) <==> exists|j: int| 0 <= j < i && s[j].0 == k,
            decreases n - i,
        {
            let name = self.entries[i].0.clone();
            assert(name@ == s[i as int].0);
            let ghost r = views(res@);
            assert(!r.contains(name@)) by {
                if r.contains(name@) {
                    let j = choose|j: int| 0 <= j < i && s[j].0 == name@;
                    assert(s[j].0 != s[i as int].0);
                }
            }
            let mut p: usize = 0;
            while p < res.len() && str_lt(res[p].as_str(), name.as_str())
                invariant
                    r == views(res@),
                    p <= res@.len(),
                    forall|a: int| 0 <= a < p ==> lex_lt(#[trigger] r[a], name@),
                decreases res.len() - p,
            {
                p += 1;
            }
            proof {
                assert forall|a: int| p <= a < r.len() implies lex_lt(name@, #[trigger] r[a]) by {
                    assert(r[p as int] != name@) by {
                        assert(r.contains(r[p as int]));
                    }
                    lemma_lex_total(r[p as int], name@);
                    if a > p {
                        lemma_lex_transitive(name@, r[p as int], r[a]);
                    }
                }
            }
            res.insert(p, name);
            let ghost r2 = views(res@);
            assert(r2 =~= r.insert(p as int, name@));
            assert(strictly_sorted(r2)) by {
                assert forall|a: int, b: int| 0 <= a < b < r2.len() implies lex_lt(
                    r2[a],
                    r2[b],
                ) by {
                    if a < p && b > p {
                        lemma_lex_transitive(r2[a], name@, r2[b]);
                    }
                }
            }
            assert forall|k: Seq<char>| r2.contains(k) <==> exists|j: int|
                0 <= j < i + 1 && s[j].0 == k by {
                if r2.contains(k) {
                    let c = choose|c: int| 0 <= c < r2.len() && r2[c] == k;
                    if c < p {
                        assert(r.contains(r[c]));
                    } else if c > p {
                        assert(r.contains(r[c - 1]));
                    } else {
                        assert(s[i as int].0 == k);
                    }
                }
                if exists|j: int| 0 <= j < i + 1 && s[j].0 == k {
                    let j = choose|j: int| 0 <= j < i + 1 && s[j].0 == k;
                    if j < i {
                        assert(r.contains(k));
                        let c = choose|c: int| 0 <= c < r.len() && r[c] == k;
                        if c < p {
                            assert(r2[c] == k);
                        } else {
                            assert(r2[c + 1] == k);
                        }
                    } else {
                        assert(r2[p as int] == k);
                    }
                }
            }
            i += 1;
        }
        proof {
            assert forall|k: Seq<char>| views(res@).contains(k) <==> self@.dom().contains(k) by {
                lemma_map_of_dom(s, k);
            }
        }
        res
    }
}

} // verus!

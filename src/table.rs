use vstd::prelude::*;
use crate::utils::Lifetime;

verus! {

/// A slot that belongs to the block of some lifetime.
pub trait Scoped {
    spec fn scope(&self) -> Lifetime;

    fn lifetime(&self) -> (r: Lifetime)
        ensures
            r == self.scope(),
    ;
}

/// No name occurs twice.
pub open spec fn keys_unique<V>(s: Seq<(String, V)>) -> bool {
    forall|i: int, j: int|
        0 <= i < s.len() && 0 <= j < s.len() && i != j ==> #[trigger] s[i].0@ != #[trigger] s[j].0@
}

/// The map from names to entries that a list of named entries stands for.
pub open spec fn table_view<V>(s: Seq<(String, V)>) -> Map<Seq<char>, V> {
    Map::new(
        |k: Seq<char>| exists|i: int| 0 <= i < s.len() && s[i].0@ == k,
        |k: Seq<char>| s[choose|i: int| 0 <= i < s.len() && s[i].0@ == k].1,
    )
}

/// The entries whose lifetime is not `l`.
pub open spec fn drop_by<V: Scoped>(m: Map<Seq<char>, V>, l: Lifetime) -> Map<Seq<char>, V> {
    m.restrict(m.dom().filter(|k: Seq<char>| m[k].scope() != l))
}

pub proof fn lemma_at<V>(s: Seq<(String, V)>, i: int)
    requires
        keys_unique(s),
        0 <= i < s.len(),
    ensures
        table_view(s).contains_key(s[i].0@),
        table_view(s)[s[i].0@] == s[i].1,
{
    let k = s[i].0@;
    assert(s[i].0@ == k);
    let j = choose|j: int| 0 <= j < s.len() && s[j].0@ == k;
    assert(j == i);
}

/// Position of the entry named `k`.
pub fn find<V>(s: &Vec<(String, V)>, k: &String) -> (r: Option<usize>)
    requires
        keys_unique(s@),
    ensures
        match r {
            Some(i) => i < s@.len() && s@[i as int].0@ == k@ && table_view(s@).contains_key(k@)
                && table_view(s@)[k@] == s@[i as int].1,
            None => !table_view(s@).contains_key(k@),
        },
{
    let mut i: usize = 0;
    while i < s.len()
        invariant
            keys_unique(s@),
            i <= s@.len(),
            forall|j: int| 0 <= j < i ==> s@[j].0@ != k@,
        decreases s@.len() - i,
    {
        if s[i].0 == *k {
            proof {
                lemma_at(s@, i as int);
            }
            return Some(i);
        }
        i += 1;
    }
    None
}

/// Replaces the entry at position `i`, keeping its name.
pub fn put_at<V>(s: &mut Vec<(String, V)>, i: usize, v: V)
    requires
        keys_unique(old(s)@),
        i < old(s)@.len(),
    ensures
        keys_unique(final(s)@),
        table_view(final(s)@) == table_view(old(s)@).insert(old(s)@[i as int].0@, v),
        final(s)@.len() == old(s)@.len(),
{
    let ghost k = s@[i as int].0@;
    let name = s[i].0.clone();
    s.set(i, (name, v));
    proof {
        let m1 = table_view(old(s)@).insert(k, v);
        assert forall|kk: Seq<char>| #[trigger] table_view(s@).contains_key(kk) == m1.contains_key(kk) by {
            if exists|j: int| 0 <= j < s@.len() && s@[j].0@ == kk {
                let j = choose|j: int| 0 <= j < s@.len() && s@[j].0@ == kk;
                assert(old(s)@[j].0@ == kk);
            }
            if exists|j: int| 0 <= j < old(s)@.len() && old(s)@[j].0@ == kk {
                let j = choose|j: int| 0 <= j < old(s)@.len() && old(s)@[j].0@ == kk;
                assert(s@[j].0@ == kk);
            }
            assert(s@[i as int].0@ == k);
        }
        assert forall|kk: Seq<char>| table_view(s@).contains_key(kk) implies #[trigger] table_view(s@)[kk] == m1[kk] by {
            let j = choose|j: int| 0 <= j < s@.len() && s@[j].0@ == kk;
            lemma_at(s@, j);
            lemma_at(old(s)@, j);
        }
        assert(table_view(s@) =~= m1);
    }
}

/// Adds an entry under a name that is not there yet.
pub fn push_new<V>(s: &mut Vec<(String, V)>, name: String, v: V)
    requires
        keys_unique(old(s)@),
        !table_view(old(s)@).contains_key(name@),
    ensures
        keys_unique(final(s)@),
        table_view(final(s)@) == table_view(old(s)@).insert(name@, v),
{
    let ghost n = s@.len();
    s.push((name, v));
    proof {
        let m1 = table_view(old(s)@).insert(name@, v);
        assert forall|i: int| 0 <= i < n implies #[trigger] s@[i].0@ != name@ by {
            if s@[i].0@ == name@ {
                assert(old(s)@[i].0@ == name@);
            }
        }
        assert(keys_unique(s@));
        assert forall|kk: Seq<char>| #[trigger] table_view(s@).contains_key(kk) == m1.contains_key(kk) by {
            if exists|j: int| 0 <= j < s@.len() && s@[j].0@ == kk {
                let j = choose|j: int| 0 <= j < s@.len() && s@[j].0@ == kk;
                if j < n {
                    assert(old(s)@[j].0@ == kk);
                }
            }
            if exists|j: int| 0 <= j < old(s)@.len() && old(s)@[j].0@ == kk {
                let j = choose|j: int| 0 <= j < old(s)@.len() && old(s)@[j].0@ == kk;
                assert(s@[j].0@ == kk);
            }
            assert(s@[n as int].0@ == name@);
        }
        assert forall|kk: Seq<char>| table_view(s@).contains_key(kk) implies #[trigger] table_view(s@)[kk] == m1[kk] by {
            let j = choose|j: int| 0 <= j < s@.len() && s@[j].0@ == kk;
            lemma_at(s@, j);
            if j < n {
                lemma_at(old(s)@, j);
            }
        }
        assert(table_view(s@) =~= m1);
    }
}

/// Binds `name` to `v`, replacing what it was bound to.
pub fn bind<V>(s: &mut Vec<(String, V)>, name: String, v: V)
    requires
        keys_unique(old(s)@),
    ensures
        keys_unique(final(s)@),
        table_view(final(s)@) == table_view(old(s)@).insert(name@, v),
{
    match find(s, &name) {
        Some(i) => put_at(s, i, v),
        None => push_new(s, name, v),
    }
}

/// Removes every entry of lifetime `l` and hands them back.
pub fn drop_scope<V: Scoped>(s: &mut Vec<(String, V)>, l: Lifetime) -> (gone: Vec<V>)
    requires
        keys_unique(old(s)@),
    ensures
        keys_unique(final(s)@),
        table_view(final(s)@) == drop_by(table_view(old(s)@), l),
        forall|v: V|
            gone@.contains(v) <==> exists|k: Seq<char>|
                table_view(old(s)@).contains_key(k) && #[trigger] table_view(old(s)@)[k] == v
                    && v.scope() == l,
{
    let ghost orig = s@;
    let ghost n = s@.len();
    let ghost m0 = table_view(orig);
    let mut rest: Vec<(String, V)> = Vec::new();
    std::mem::swap(s, &mut rest);
    let mut kept: Vec<(String, V)> = Vec::new();
    let mut gone: Vec<V> = Vec::new();
    while rest.len() > 0
        invariant
            keys_unique(orig),
            m0 == table_view(orig),
            orig.len() == n,
            rest@.len() <= n,
            rest@ == orig.subrange(0, rest@.len() as int),
            keys_unique(kept@),
            forall|kk: Seq<char>|
                #[trigger] table_view(kept@).contains_key(kk) <==> exists|j: int|
                    rest@.len() <= j < n && orig[j].0@ == kk && orig[j].1.scope() != l,
            forall|kk: Seq<char>|
                #[trigger] table_view(kept@).contains_key(kk) ==> table_view(kept@)[kk] == m0[kk],
            forall|v: V|
                gone@.contains(v) <==> exists|j: int|
                    rest@.len() <= j < n && #[trigger] orig[j].1 == v && v.scope() == l,
        decreases rest@.len(),
    {
        let ghost r = rest@.len() - 1;
        let ghost gone0 = gone@;
        let e = match rest.pop() {
            Some(e) => e,
            None => return gone,
        };
        proof {
            lemma_at(orig, r);
            assert(orig[r] == e);
        }
        if e.1.lifetime() != l {
            proof {
                if table_view(kept@).contains_key(e.0@) {
                    let j = choose|j: int|
                        rest@.len() + 1 <= j < n && orig[j].0@ == e.0@ && orig[j].1.scope() != l;
                    assert(orig[j].0@ == orig[r].0@);
                }
            }
            let ghost before = table_view(kept@);
            push_new(&mut kept, e.0, e.1);
            proof {
                assert forall|kk: Seq<char>|
                    #[trigger] table_view(kept@).contains_key(kk) <==> exists|j: int|
                        rest@.len() <= j < n && orig[j].0@ == kk && orig[j].1.scope() != l by {
                    if kk == orig[r].0@ {
                        assert(rest@.len() <= r < n && orig[r].0@ == kk && orig[r].1.scope() != l);
                    } else if exists|j: int|
                        rest@.len() <= j < n && orig[j].0@ == kk && orig[j].1.scope() != l {
                        let j = choose|j: int|
                            rest@.len() <= j < n && orig[j].0@ == kk && orig[j].1.scope() != l;
                        assert(j != r);
                        assert(before.contains_key(kk));
                    }
                }
                assert forall|v: V|
                    gone@.contains(v) <==> exists|j: int|
                        rest@.len() <= j < n && #[trigger] orig[j].1 == v && v.scope() == l by {
                    if exists|j: int| rest@.len() <= j < n && #[trigger] orig[j].1 == v && v.scope() == l {
                        let j = choose|j: int| rest@.len() <= j < n && #[trigger] orig[j].1 == v && v.scope() == l;
                        assert(j != r);
                    }
                }
            }
        } else {
            gone.push(e.1);
            proof {
                assert forall|kk: Seq<char>|
                    #[trigger] table_view(kept@).contains_key(kk) <==> exists|j: int|
                        rest@.len() <= j < n && orig[j].0@ == kk && orig[j].1.scope() != l by {
                    if exists|j: int|
                        rest@.len() <= j < n && orig[j].0@ == kk && orig[j].1.scope() != l {
                        let j = choose|j: int|
                            rest@.len() <= j < n && orig[j].0@ == kk && orig[j].1.scope() != l;
                        assert(j != r);
                        assert(rest@.len() + 1 <= j);
                    }
                }
                assert forall|v: V|
                    gone@.contains(v) <==> exists|j: int|
                        rest@.len() <= j < n && #[trigger] orig[j].1 == v && v.scope() == l by {
                    if gone@.contains(v) {
                        let t = choose|t: int| 0 <= t < gone@.len() && gone@[t] == v;
                        if t < gone0.len() {
                            assert(gone0[t] == v);
                            assert(gone0.contains(v));
                        } else {
                            assert(orig[r].1 == v);
                        }
                    }
                    if exists|j: int| rest@.len() <= j < n && #[trigger] orig[j].1 == v && v.scope() == l {
                        let j = choose|j: int| rest@.len() <= j < n && #[trigger] orig[j].1 == v && v.scope() == l;
                        if j == r {
                            assert(gone@[gone@.len() - 1] == v);
                        } else {
                            assert(gone0.contains(v));
                            let t = choose|t: int| 0 <= t < gone0.len() && gone0[t] == v;
                            assert(gone@[t] == v);
                        }
                    }
                }
            }
        }
    }
    *s = kept;
    proof {
        let target = drop_by(m0, l);
        assert forall|kk: Seq<char>| #[trigger] table_view(s@).contains_key(kk) <==> target.contains_key(kk) by {
            if table_view(s@).contains_key(kk) {
                let j = choose|j: int| 0 <= j < n && orig[j].0@ == kk && orig[j].1.scope() != l;
                lemma_at(orig, j);
            }
            if target.contains_key(kk) {
                let j = choose|j: int| 0 <= j < n && orig[j].0@ == kk;
                lemma_at(orig, j);
                assert(orig[j].1.scope() != l);
            }
        }
        assert(table_view(s@) =~= target);
        assert forall|v: V|
            gone@.contains(v) <==> exists|k: Seq<char>|
                m0.contains_key(k) && #[trigger] m0[k] == v && v.scope() == l by {
            if gone@.contains(v) {
                let j = choose|j: int| 0 <= j < n && #[trigger] orig[j].1 == v && v.scope() == l;
                lemma_at(orig, j);
                assert(m0.contains_key(orig[j].0@) && m0[orig[j].0@] == v);
            }
            if exists|k: Seq<char>| m0.contains_key(k) && #[trigger] m0[k] == v && v.scope() == l {
                let k = choose|k: Seq<char>| m0.contains_key(k) && #[trigger] m0[k] == v && v.scope() == l;
                let j = choose|j: int| 0 <= j < n && orig[j].0@ == k;
                lemma_at(orig, j);
                assert(orig[j].1 == v);
            }
        }
    }
    gone
}

} // verus!

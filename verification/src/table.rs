use vstd::prelude::*;

verus! {

/// Insert the bindings of `bs` into `m`, in order: the model of building a
/// registration table by successive registrations, later bindings for a key
/// silently replacing earlier ones.
pub open spec fn insert_all<F>(
    m: Map<Seq<char>, F>,
    bs: Seq<(Seq<char>, F)>,
) -> Map<Seq<char>, F>
    decreases bs.len(),
{
    if bs.len() == 0 {
        m
    } else {
        insert_all(m, bs.drop_last()).insert(bs.last().0, bs.last().1)
    }
}

/// The table described by a sequence of bindings, starting from nothing.
pub open spec fn table_of<F>(bs: Seq<(Seq<char>, F)>) -> Map<Seq<char>, F> {
    insert_all(Map::empty(), bs)
}

/// One stored entry, as the binding it stands for: the key's characters and
/// the callback.
pub open spec fn binding_of<F>(e: (String, F)) -> (Seq<char>, F) {
    (e.0@, e.1)
}

/// The stored entries, as the bindings they stand for, in storage order.
pub open spec fn bindings_of<F>(entries: Seq<(String, F)>) -> Seq<(Seq<char>, F)> {
    entries.map_values(|e: (String, F)| binding_of(e))
}

/// The registration table: string keys bound to callbacks.  Binding a key
/// that is already bound replaces the earlier callback.
pub struct ArgTable<F> {
    entries: Vec<(String, F)>,
}

impl<F> View for ArgTable<F> {
    type V = Map<Seq<char>, F>;

    closed spec fn view(&self) -> Map<Seq<char>, F> {
        table_of(bindings_of(self.entries@))
    }
}

impl<F> ArgTable<F> {
    /// The empty table: no key is bound.
    pub fn new() -> (t: Self)
        ensures
            t@ == Map::<Seq<char>, F>::empty(),
    {
        let t = ArgTable { entries: Vec::new() };
        proof {
            assert(bindings_of(t.entries@) =~= Seq::empty());
        }
        t
    }

    /// Bind `key` to `callback`, replacing any earlier binding of `key`.
    pub fn insert(&mut self, key: String, callback: F)
        ensures
            (*final(self))@ == (*old(self))@.insert(key@, callback),
    {
        let ghost k = key@;
        self.entries.push((key, callback));
        proof {
            let bs_old = bindings_of(old(self).entries@);
            let bs_new = bindings_of(self.entries@);
            assert(bs_new.drop_last() =~= bs_old);
            assert(bs_new.last() == (k, callback));
        }
    }

    /// Look `key` up: the callback it is bound to, if any.
    pub fn get(&self, key: &String) -> (r: Option<&F>)
        ensures
            (match r {
                Some(f) => self@.dom().contains(key@) && *f == self@[key@],
                None => !self@.dom().contains(key@),
            }),
    {
        let ghost bs = bindings_of(self.entries@);
        let mut i: usize = self.entries.len();
        while i > 0
            invariant
                i <= self.entries.len(),
                bs == bindings_of(self.entries@),
                forall|j: int| i <= j < bs.len() ==> bs[j].0 != key@,
            decreases i,
        {
            i = i - 1;
            let entry = &self.entries[i];
            if entry.0 == *key {
                proof {
                    assert(bs[i as int] == binding_of(self.entries@[i as int]));
                    lemma_insert_all_last_match(Map::empty(), bs, key@, i as int);
                }
                return Some(&entry.1);
            }
            proof {
                assert(bs[i as int] == binding_of(self.entries@[i as int]));
            }
        }
        proof {
            lemma_insert_all_unbound(Map::empty(), bs, key@);
        }
        None
    }
}

/// When the last binding of `k` in `bs` stands at position `i`, the table
/// built from `bs` binds `k` to that callback.
proof fn lemma_insert_all_last_match<F>(
    m: Map<Seq<char>, F>,
    bs: Seq<(Seq<char>, F)>,
    k: Seq<char>,
    i: int,
)
    requires
        0 <= i < bs.len(),
        bs[i].0 == k,
        forall|j: int| i < j < bs.len() ==> bs[j].0 != k,
    ensures
        insert_all(m, bs).dom().contains(k),
        insert_all(m, bs)[k] == bs[i].1,
    decreases bs.len(),
{
    if i == bs.len() - 1 {
    } else {
        assert(bs.drop_last()[i] == bs[i]);
        lemma_insert_all_last_match(m, bs.drop_last(), k, i);
        assert(bs.last().0 != k);
    }
}

/// A key that no binding of `bs` mentions is bound in the table built from
/// `bs` exactly as it is bound in `m`.
proof fn lemma_insert_all_unbound<F>(m: Map<Seq<char>, F>, bs: Seq<(Seq<char>, F)>, k: Seq<char>)
    requires
        forall|j: int| 0 <= j < bs.len() ==> bs[j].0 != k,
    ensures
        insert_all(m, bs).dom().contains(k) == m.dom().contains(k),
        m.dom().contains(k) ==> insert_all(m, bs)[k] == m[k],
    decreases bs.len(),
{
    if bs.len() > 0 {
        lemma_insert_all_unbound(m, bs.drop_last(), k);
    }
}

/// Later registration wins: binding a key twice leaves only the second
/// callback in the table, whatever was bound before.
pub proof fn lemma_later_binding_wins<F>(m: Map<Seq<char>, F>, k: Seq<char>, f1: F, f2: F)
    ensures
        m.insert(k, f1).insert(k, f2) == m.insert(k, f2),
{
    assert(m.insert(k, f1).insert(k, f2) =~= m.insert(k, f2));
}

/// Building a table from the bindings `a` up front and then adding the
/// bindings `b` one by one gives the same table as adding all of `a + b`
/// one by one, in that order.
pub proof fn lemma_prebuilt_matches_fluent<F>(a: Seq<(Seq<char>, F)>, b: Seq<(Seq<char>, F)>)
    ensures
        insert_all(table_of(a), b) == table_of(a + b),
{
    lemma_insert_all_append(Map::empty(), a, b);
}

/// Inserting `a + b` into `m` is inserting `a`, then `b`.
proof fn lemma_insert_all_append<F>(
    m: Map<Seq<char>, F>,
    a: Seq<(Seq<char>, F)>,
    b: Seq<(Seq<char>, F)>,
)
    ensures
        insert_all(m, a + b) == insert_all(insert_all(m, a), b),
    decreases b.len(),
{
    if b.len() == 0 {
        assert(a + b =~= a);
    } else {
        lemma_insert_all_append(m, a, b.drop_last());
        assert((a + b).drop_last() =~= a + b.drop_last());
        assert((a + b).last() == b.last());
    }
}

} // verus!

//! A small association list from language tags to message texts, with a
//! mathematical `Map` as its abstraction. Keys are kept unique, and entries
//! keep their first-insertion order, so conversions that walk the entries are
//! deterministic.

use vstd::prelude::*;

verus! {

/// The entries of a language-to-text table, at the specification level:
/// a sequence of (language, text) pairs.
pub type Texts = Seq<(Seq<char>, Seq<char>)>;

/// The abstraction of a language-to-text table.
pub type TextMap = Map<Seq<char>, Seq<char>>;

/// Insert a binding: the first entry with key `k` has its value replaced in
/// place; if no entry has key `k`, the binding is appended at the end.
pub open spec fn kv_insert(s: Texts, k: Seq<char>, v: Seq<char>) -> Texts
    decreases s.len(),
{
    if s.len() == 0 {
        seq![(k, v)]
    } else if s[0].0 == k {
        seq![(k, v)] + s.drop_first()
    } else {
        seq![s[0]] + kv_insert(s.drop_first(), k, v)
    }
}

/// Remove the first entry with key `k`, if any.
pub open spec fn kv_remove(s: Texts, k: Seq<char>) -> Texts
    decreases s.len(),
{
    if s.len() == 0 {
        s
    } else if s[0].0 == k {
        s.drop_first()
    } else {
        seq![s[0]] + kv_remove(s.drop_first(), k)
    }
}

/// The map an entry sequence stands for; on a duplicated key the earliest
/// entry wins, matching a front-to-back scan.
pub open spec fn kv_map(s: Texts) -> TextMap
    decreases s.len(),
{
    if s.len() == 0 {
        Map::empty()
    } else {
        kv_map(s.drop_first()).insert(s[0].0, s[0].1)
    }
}

/// Some entry carries key `k`.
pub open spec fn kv_has(s: Texts, k: Seq<char>) -> bool {
    exists|i: int| 0 <= i < s.len() && s[i].0 == k
}

/// No two entries share a key.
pub open spec fn kv_distinct(s: Texts) -> bool {
    forall|i: int, j: int| 0 <= i < j < s.len() ==> s[i].0 != s[j].0
}

/// Every entry's text is non-empty.
pub open spec fn kv_values_nonempty(s: Texts) -> bool {
    forall|i: int| 0 <= i < s.len() ==> s[i].1.len() > 0
}

pub proof fn lemma_kv_map_has(s: Texts, k: Seq<char>)
    ensures
        kv_map(s).contains_key(k) <==> kv_has(s, k),
    decreases s.len(),
{
    if s.len() == 0 {
    } else {
        lemma_kv_map_has(s.drop_first(), k);
        if kv_has(s.drop_first(), k) {
            let i = choose|i: int| 0 <= i < s.drop_first().len() && s.drop_first()[i].0 == k;
            assert(s[i + 1].0 == k);
        }
        if kv_has(s, k) && s[0].0 != k {
            let i = choose|i: int| 0 <= i < s.len() && s[i].0 == k;
            assert(s.drop_first()[i - 1].0 == k);
        }
    }
}

/// The map's value at the key of a first-occurrence entry is that entry's text.
pub proof fn lemma_kv_map_index(s: Texts, i: int)
    requires
        0 <= i < s.len(),
        forall|j: int| 0 <= j < i ==> s[j].0 != s[i].0,
    ensures
        kv_map(s).contains_key(s[i].0),
        kv_map(s)[s[i].0] == s[i].1,
    decreases s.len(),
{
    if i == 0 {
    } else {
        assert(s.drop_first()[i - 1] == s[i]);
        assert(forall|j: int| 0 <= j < i - 1 ==> s.drop_first()[j] == s[j + 1]);
        lemma_kv_map_index(s.drop_first(), i - 1);
    }
}

pub proof fn lemma_kv_insert_map(s: Texts, k: Seq<char>, v: Seq<char>)
    requires
        kv_distinct(s),
    ensures
        kv_map(kv_insert(s, k, v)) == kv_map(s).insert(k, v),
    decreases s.len(),
{
    let r = kv_insert(s, k, v);
    if s.len() == 0 {
        assert(r == seq![(k, v)]);
        assert(r.drop_first() =~= Seq::<(Seq<char>, Seq<char>)>::empty());
        assert(kv_map(r) == kv_map(r.drop_first()).insert(r[0].0, r[0].1));
        assert(kv_map(r.drop_first()) == Map::<Seq<char>, Seq<char>>::empty());
        assert(kv_map(r) == Map::<Seq<char>, Seq<char>>::empty().insert(k, v));
        assert(kv_map(s) == Map::<Seq<char>, Seq<char>>::empty());
    } else if s[0].0 == k {
        assert(r.drop_first() =~= s.drop_first());
        assert(r[0] == (k, v));
        assert(kv_map(r) == kv_map(s.drop_first()).insert(k, v));
        assert(kv_map(s).insert(k, v) =~= kv_map(s.drop_first()).insert(k, v));
    } else {
        let rest = s.drop_first();
        assert(kv_distinct(rest)) by {
            assert(forall|i: int| 0 <= i < rest.len() ==> rest[i] == s[i + 1]);
        }
        lemma_kv_insert_map(rest, k, v);
        assert(r[0] == s[0]);
        assert(r.drop_first() =~= kv_insert(rest, k, v));
        assert(kv_map(r) == kv_map(rest).insert(k, v).insert(s[0].0, s[0].1));
        assert(kv_map(rest).insert(k, v).insert(s[0].0, s[0].1) =~= kv_map(rest).insert(
            s[0].0,
            s[0].1,
        ).insert(k, v));
    }
}

pub proof fn lemma_kv_remove_map(s: Texts, k: Seq<char>)
    requires
        kv_distinct(s),
    ensures
        kv_map(kv_remove(s, k)) == kv_map(s).remove(k),
    decreases s.len(),
{
    let r = kv_remove(s, k);
    if s.len() == 0 {
        assert(kv_map(r) =~= kv_map(s).remove(k));
    } else if s[0].0 == k {
        assert(r =~= s.drop_first());
        assert(!kv_has(s.drop_first(), k)) by {
            assert(forall|i: int| 0 <= i < s.drop_first().len() ==> s.drop_first()[i] == s[i + 1]);
        }
        lemma_kv_map_has(s.drop_first(), k);
        assert(kv_map(s.drop_first()) =~= kv_map(s.drop_first()).insert(k, s[0].1).remove(k));
    } else {
        let rest = s.drop_first();
        assert(kv_distinct(rest)) by {
            assert(forall|i: int| 0 <= i < rest.len() ==> rest[i] == s[i + 1]);
        }
        lemma_kv_remove_map(rest, k);
        assert(r[0] == s[0]);
        assert(r.drop_first() =~= kv_remove(rest, k));
        assert(kv_map(r) == kv_map(rest).remove(k).insert(s[0].0, s[0].1));
        assert(kv_map(rest).remove(k).insert(s[0].0, s[0].1) =~= kv_map(rest).insert(
            s[0].0,
            s[0].1,
        ).remove(k));
    }
}

pub proof fn lemma_kv_map_empty(s: Texts)
    ensures
        (kv_map(s) == Map::<Seq<char>, Seq<char>>::empty()) <==> s.len() == 0,
{
    if s.len() == 0 {
        assert(kv_map(s) =~= Map::<Seq<char>, Seq<char>>::empty());
    } else {
        assert(kv_map(s).contains_key(s[0].0));
        assert(!Map::<Seq<char>, Seq<char>>::empty().contains_key(s[0].0));
    }
}

/// Non-empty entry texts give non-empty map values.
pub proof fn lemma_kv_map_values_nonempty(s: Texts, k: Seq<char>)
    requires
        kv_values_nonempty(s),
        kv_map(s).contains_key(k),
    ensures
        kv_map(s)[k].len() > 0,
    decreases s.len(),
{
    if s.len() == 0 {
    } else if s[0].0 == k {
    } else {
        assert(kv_values_nonempty(s.drop_first())) by {
            assert(forall|i: int| 0 <= i < s.drop_first().len() ==> s.drop_first()[i] == s[i + 1]);
        }
        lemma_kv_map_values_nonempty(s.drop_first(), k);
    }
}

pub proof fn lemma_kv_insert_values_nonempty(s: Texts, k: Seq<char>, v: Seq<char>)
    requires
        kv_values_nonempty(s),
        v.len() > 0,
    ensures
        kv_values_nonempty(kv_insert(s, k, v)),
        kv_insert(s, k, v).len() >= 1,
    decreases s.len(),
{
    let r = kv_insert(s, k, v);
    if s.len() == 0 {
    } else if s[0].0 == k {
        assert(forall|i: int| 1 <= i < r.len() ==> r[i] == s[i]);
    } else {
        let rest = s.drop_first();
        assert(kv_values_nonempty(rest)) by {
            assert(forall|i: int| 0 <= i < rest.len() ==> rest[i] == s[i + 1]);
        }
        lemma_kv_insert_values_nonempty(rest, k, v);
        assert(forall|i: int| 1 <= i < r.len() ==> r[i] == kv_insert(rest, k, v)[i - 1]);
    }
}

pub proof fn lemma_kv_remove_values_nonempty(s: Texts, k: Seq<char>)
    requires
        kv_values_nonempty(s),
    ensures
        kv_values_nonempty(kv_remove(s, k)),
    decreases s.len(),
{
    let r = kv_remove(s, k);
    if s.len() == 0 {
    } else if s[0].0 == k {
        assert(forall|i: int| 0 <= i < r.len() ==> r[i] == s[i + 1]);
    } else {
        let rest = s.drop_first();
        assert(kv_values_nonempty(rest)) by {
            assert(forall|i: int| 0 <= i < rest.len() ==> rest[i] == s[i + 1]);
        }
        lemma_kv_remove_values_nonempty(rest, k);
        assert(forall|i: int| 1 <= i < r.len() ==> r[i] == kv_remove(rest, k)[i - 1]);
    }
}

/// With the key absent, `kv_insert` appends the new binding.
pub proof fn lemma_kv_insert_at_end(s: Texts, k: Seq<char>, v: Seq<char>)
    requires
        forall|j: int| 0 <= j < s.len() ==> s[j].0 != k,
    ensures
        kv_insert(s, k, v) == s.push((k, v)),
    decreases s.len(),
{
    if s.len() == 0 {
        assert(kv_insert(s, k, v) =~= s.push((k, v)));
    } else {
        let rest = s.drop_first();
        assert(forall|j: int| 0 <= j < rest.len() ==> rest[j] == s[j + 1]);
        lemma_kv_insert_at_end(rest, k, v);
        assert(kv_insert(s, k, v) =~= s.push((k, v)));
    }
}

/// With the key first found at `i`, `kv_insert` updates the entry at `i`.
pub proof fn lemma_kv_insert_at_found(s: Texts, k: Seq<char>, v: Seq<char>, i: int)
    requires
        0 <= i < s.len(),
        s[i].0 == k,
        forall|j: int| 0 <= j < i ==> s[j].0 != k,
    ensures
        kv_insert(s, k, v) == s.update(i, (k, v)),
    decreases s.len(),
{
    if i == 0 {
        assert(kv_insert(s, k, v) =~= s.update(0, (k, v)));
    } else {
        let rest = s.drop_first();
        assert(forall|j: int| 0 <= j < rest.len() ==> rest[j] == s[j + 1]);
        lemma_kv_insert_at_found(rest, k, v, i - 1);
        assert(kv_insert(s, k, v) =~= s.update(i, (k, v)));
    }
}

/// With the key first found at `i`, `kv_remove` deletes the entry at `i`.
pub proof fn lemma_kv_remove_at_found(s: Texts, k: Seq<char>, i: int)
    requires
        0 <= i < s.len(),
        s[i].0 == k,
        forall|j: int| 0 <= j < i ==> s[j].0 != k,
    ensures
        kv_remove(s, k) == s.remove(i),
    decreases s.len(),
{
    if i == 0 {
        assert(kv_remove(s, k) =~= s.remove(0));
    } else {
        let rest = s.drop_first();
        assert(forall|j: int| 0 <= j < rest.len() ==> rest[j] == s[j + 1]);
        lemma_kv_remove_at_found(rest, k, i - 1);
        assert(kv_remove(s, k) =~= s.remove(i));
    }
}

/// With the key absent, `kv_remove` changes nothing.
pub proof fn lemma_kv_remove_absent(s: Texts, k: Seq<char>)
    requires
        forall|j: int| 0 <= j < s.len() ==> s[j].0 != k,
    ensures
        kv_remove(s, k) == s,
    decreases s.len(),
{
    if s.len() == 0 {
    } else {
        let rest = s.drop_first();
        assert(forall|j: int| 0 <= j < rest.len() ==> rest[j] == s[j + 1]);
        lemma_kv_remove_absent(rest, k);
        assert(kv_remove(s, k) =~= s);
    }
}

/// A language-to-text table: all translations of one message, keyed by
/// language tag. Keys are unique; entries keep first-insertion order.
pub struct MessageMap {
    pub entries: Vec<(String, String)>,
}

impl View for MessageMap {
    type V = Texts;

    open spec fn view(&self) -> Texts {
        self.entries.deep_view()
    }
}

impl Clone for MessageMap {
    /// A clone stands for the same entries.
    fn clone(&self) -> (r: Self)
        ensures
            r@ == self@,
    {
        let n = self.entries.len();
        let mut entries: Vec<(String, String)> = Vec::new();
        let mut i: usize = 0;
        while i < n
            invariant
                n == self.entries@.len(),
                i <= n,
                entries@.len() == i,
                entries.deep_view() =~= self@.take(i as int),
            decreases n - i,
        {
            let language = self.entries[i].0.clone();
            let text = self.entries[i].1.clone();
            let ghost prev = entries.deep_view();
            entries.push((language, text));
            proof {
                assert(entries@.len() == i + 1);
                assert(forall|j: int| 0 <= j < i ==> entries.deep_view()[j] == prev[j]);
                assert(entries.deep_view()[i as int] == (language@, text@));
                assert(entries.deep_view() =~= self@.take(i as int + 1));
            }
            i += 1;
        }
        let r = MessageMap { entries };
        proof {
            assert(r@ =~= self@);
        }
        r
    }
}

impl MessageMap {
    /// The keys of the entries are pairwise distinct.
    pub open spec fn wf(&self) -> bool {
        kv_distinct(self@)
    }

    /// The map this table stands for.
    pub open spec fn map_view(&self) -> TextMap {
        kv_map(self@)
    }

    pub fn new() -> (r: MessageMap)
        ensures
            r@ == Seq::<(Seq<char>, Seq<char>)>::empty(),
            r.wf(),
    {
        let r = MessageMap { entries: Vec::new() };
        proof {
            assert(r@ =~= Seq::<(Seq<char>, Seq<char>)>::empty());
        }
        r
    }

    pub fn len(&self) -> (n: usize)
        ensures
            n == self@.len(),
    {
        self.entries.len()
    }

    /// Look a language up; `None` exactly when the language has no entry.
    pub fn get(&self, language: &String) -> (r: Option<&String>)
        ensures
            match r {
                Some(t) => self.map_view().contains_key(language@) && self.map_view()[language@]
                    == t@,
                None => !self.map_view().contains_key(language@),
            },
    {
        let n = self.entries.len();
        let mut i: usize = 0;
        while i < n
            invariant
                n == self@.len(),
                i <= n,
                forall|j: int| 0 <= j < i ==> self@[j].0 != language@,
            decreases n - i,
        {
            if self.entries[i].0 == *language {
                proof {
                    lemma_kv_map_index(self@, i as int);
                }
                return Some(&self.entries[i].1);
            }
            i += 1;
        }
        proof {
            lemma_kv_map_has(self@, language@);
        }
        None
    }

    /// Insert or overwrite the text for a language.
    #[verifier::loop_isolation(false)]
    pub fn insert(&mut self, language: String, text: String)
        requires
            old(self).wf(),
        ensures
            final(self)@ == kv_insert(old(self)@, language@, text@),
            final(self).wf(),
            final(self).map_view() == old(self).map_view().insert(language@, text@),
    {
        proof {
            lemma_kv_insert_map(self@, language@, text@);
        }
        let n = self.entries.len();
        let mut i: usize = 0;
        while i < n
            invariant
                n == self@.len(),
                i <= n,
                *self == *old(self),
                forall|j: int| 0 <= j < i ==> self@[j].0 != language@,
            decreases n - i,
        {
            if self.entries[i].0 == language {
                self.entries[i] = (language, text);
                proof {
                    lemma_kv_insert_at_found(old(self)@, language@, text@, i as int);
                    assert(self@ =~= old(self)@.update(i as int, (language@, text@)));
                    assert(forall|m: int| 0 <= m < self@.len() ==> self@[m].0 == old(self)@[m].0);
                }
                return ;
            }
            i += 1;
        }
        self.entries.push((language, text));
        proof {
            lemma_kv_insert_at_end(old(self)@, language@, text@);
            assert(self@ =~= old(self)@.push((language@, text@)));
        }
    }

    /// Remove the entry for a language, if present.
    #[verifier::loop_isolation(false)]
    pub fn remove(&mut self, language: &String)
        requires
            old(self).wf(),
        ensures
            final(self)@ == kv_remove(old(self)@, language@),
            final(self).wf(),
            final(self).map_view() == old(self).map_view().remove(language@),
    {
        proof {
            lemma_kv_remove_map(self@, language@);
        }
        let n = self.entries.len();
        let mut i: usize = 0;
        while i < n
            invariant
                n == self@.len(),
                i <= n,
                *self == *old(self),
                forall|j: int| 0 <= j < i ==> self@[j].0 != language@,
            decreases n - i,
        {
            if self.entries[i].0 == *language {
                self.entries.remove(i);
                proof {
                    lemma_kv_remove_at_found(old(self)@, language@, i as int);
                    assert(self@ =~= old(self)@.remove(i as int));
                    assert(forall|m: int| 0 <= m < i ==> self@[m] == old(self)@[m]);
                    assert(forall|m: int| i <= m < self@.len() ==> self@[m] == old(self)@[m + 1]);
                }
                return ;
            }
            i += 1;
        }
        proof {
            lemma_kv_remove_absent(old(self)@, language@);
        }
    }
}

} // verus!

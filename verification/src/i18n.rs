//! The message store: all translated texts keyed by namespace, code and
//! language, with a default-language fallback on lookup, a mutability switch,
//! and automatic pruning of entries whose last text was removed.

use vstd::prelude::*;

use crate::text_map::MessageMap;
use crate::text_map::TextMap;
use crate::text_map::Texts;
use crate::text_map::kv_distinct;
use crate::text_map::kv_map;
use crate::text_map::kv_values_nonempty;
use crate::text_map::lemma_kv_insert_values_nonempty;
use crate::text_map::lemma_kv_map_empty;
use crate::text_map::lemma_kv_map_values_nonempty;
use crate::text_map::lemma_kv_remove_values_nonempty;

verus! {

/// The abstraction of one message: a namespace, a code, and the entries of
/// its language-to-text table.
#[verifier::ext_equal]
pub struct RecordView {
    pub namespace: Seq<char>,
    pub code: Seq<char>,
    pub texts: Texts,
}

/// The (namespace, code) key a record stands under.
pub open spec fn rec_key(r: RecordView) -> (Seq<char>, Seq<char>) {
    (r.namespace, r.code)
}

/// A valid record as the store keeps it: unique language keys, at least one
/// entry, and no empty text.
pub open spec fn rec_ok(r: RecordView) -> bool {
    &&& kv_distinct(r.texts)
    &&& r.texts.len() > 0
    &&& kv_values_nonempty(r.texts)
}

/// No two records share a (namespace, code) key.
pub open spec fn rec_keys_distinct(s: Seq<RecordView>) -> bool {
    forall|i: int, j: int| 0 <= i < j < s.len() ==> rec_key(s[i]) != rec_key(s[j])
}

/// Some record carries key `k`.
pub open spec fn rec_has(s: Seq<RecordView>, k: (Seq<char>, Seq<char>)) -> bool {
    exists|i: int| 0 <= i < s.len() && rec_key(s[i]) == k
}

/// The abstraction of a whole store: (namespace, code) to language-to-text.
pub type StoreMap = Map<(Seq<char>, Seq<char>), TextMap>;

/// The map a record sequence stands for; on a duplicated key the earliest
/// record wins, matching a front-to-back scan.
pub open spec fn records_map(s: Seq<RecordView>) -> StoreMap
    decreases s.len(),
{
    if s.len() == 0 {
        Map::empty()
    } else {
        records_map(s.drop_first()).insert(rec_key(s[0]), kv_map(s[0].texts))
    }
}

/// The store holds a text for this namespace, code and language.
pub open spec fn store_has(m: StoreMap, n: Seq<char>, c: Seq<char>, l: Seq<char>) -> bool {
    m.contains_key((n, c)) && m[(n, c)].contains_key(l)
}

/// The text the store holds for this namespace, code and language.
pub open spec fn store_get(m: StoreMap, n: Seq<char>, c: Seq<char>, l: Seq<char>) -> Seq<char> {
    m[(n, c)][l]
}

/// Lookup with single-level fallback: the exact language wins; otherwise,
/// when the requested language is not the default and a default is set, the
/// default language's text is returned; otherwise nothing.
pub open spec fn store_lookup(
    m: StoreMap,
    default: Seq<char>,
    n: Seq<char>,
    c: Seq<char>,
    l: Seq<char>,
) -> Option<Seq<char>> {
    if store_has(m, n, c, l) {
        Some(store_get(m, n, c, l))
    } else if l != default && default.len() != 0 && store_has(m, n, c, default) {
        Some(store_get(m, n, c, default))
    } else {
        None
    }
}

/// The effect of one registration: an empty text removes the entry and prunes
/// the (namespace, code) record when its last text goes; a non-empty text is
/// inserted or overwritten.
pub open spec fn store_set(
    m: StoreMap,
    n: Seq<char>,
    c: Seq<char>,
    l: Seq<char>,
    t: Seq<char>,
) -> StoreMap {
    if t.len() == 0 {
        if m.contains_key((n, c)) {
            let inner = m[(n, c)].remove(l);
            if inner == Map::<Seq<char>, Seq<char>>::empty() {
                m.remove((n, c))
            } else {
                m.insert((n, c), inner)
            }
        } else {
            m
        }
    } else {
        let inner = if m.contains_key((n, c)) {
            m[(n, c)]
        } else {
            Map::<Seq<char>, Seq<char>>::empty()
        };
        m.insert((n, c), inner.insert(l, t))
    }
}

/// The effect of registering every (language, text) entry of one record,
/// in entry order.
pub open spec fn register_texts_spec(
    m: StoreMap,
    n: Seq<char>,
    c: Seq<char>,
    ts: Texts,
) -> StoreMap
    decreases ts.len(),
{
    if ts.len() == 0 {
        m
    } else {
        register_texts_spec(store_set(m, n, c, ts[0].0, ts[0].1), n, c, ts.drop_first())
    }
}

/// The effect of registering one record.
pub open spec fn register_record_spec(m: StoreMap, r: RecordView) -> StoreMap {
    register_texts_spec(m, r.namespace, r.code, r.texts)
}

/// The effect of registering a sequence of records, in order.
pub open spec fn register_records_spec(m: StoreMap, rs: Seq<RecordView>) -> StoreMap
    decreases rs.len(),
{
    if rs.len() == 0 {
        m
    } else {
        register_records_spec(register_record_spec(m, rs[0]), rs.drop_first())
    }
}

/// A language-to-text map as the store keeps it: not empty, no empty text.
pub open spec fn texts_map_ok(t: TextMap) -> bool {
    &&& t != Map::<Seq<char>, Seq<char>>::empty()
    &&& forall|l: Seq<char>| #[trigger] t.contains_key(l) ==> t[l].len() > 0
}

/// The store's pruning invariant over its abstraction: every kept
/// (namespace, code) still holds at least one text, and none of them empty.
pub open spec fn store_inv(m: StoreMap) -> bool {
    forall|k: (Seq<char>, Seq<char>)| #[trigger] m.contains_key(k) ==> texts_map_ok(m[k])
}

pub proof fn lemma_records_map_has(s: Seq<RecordView>, k: (Seq<char>, Seq<char>))
    ensures
        records_map(s).contains_key(k) <==> rec_has(s, k),
    decreases s.len(),
{
    if s.len() == 0 {
    } else {
        lemma_records_map_has(s.drop_first(), k);
        if rec_has(s.drop_first(), k) {
            let i = choose|i: int|
                0 <= i < s.drop_first().len() && rec_key(s.drop_first()[i]) == k;
            assert(rec_key(s[i + 1]) == k);
        }
        if rec_has(s, k) && rec_key(s[0]) != k {
            let i = choose|i: int| 0 <= i < s.len() && rec_key(s[i]) == k;
            assert(rec_key(s.drop_first()[i - 1]) == k);
        }
    }
}

/// The map's value at the key of a first-occurrence record is that record's
/// text table.
pub proof fn lemma_records_map_index(s: Seq<RecordView>, i: int)
    requires
        0 <= i < s.len(),
        forall|j: int| 0 <= j < i ==> rec_key(s[j]) != rec_key(s[i]),
    ensures
        records_map(s).contains_key(rec_key(s[i])),
        records_map(s)[rec_key(s[i])] == kv_map(s[i].texts),
    decreases s.len(),
{
    if i == 0 {
    } else {
        assert(s.drop_first()[i - 1] == s[i]);
        assert(forall|j: int| 0 <= j < i - 1 ==> s.drop_first()[j] == s[j + 1]);
        lemma_records_map_index(s.drop_first(), i - 1);
    }
}

/// Removing the record at `i` removes its key from the map.
pub proof fn lemma_records_map_remove_at(s: Seq<RecordView>, i: int)
    requires
        rec_keys_distinct(s),
        0 <= i < s.len(),
    ensures
        records_map(s.remove(i)) == records_map(s).remove(rec_key(s[i])),
    decreases s.len(),
{
    let rest = s.drop_first();
    if i == 0 {
        assert(s.remove(0) =~= rest);
        assert(!rec_has(rest, rec_key(s[0]))) by {
            assert(forall|j: int| 0 <= j < rest.len() ==> rest[j] == s[j + 1]);
        }
        lemma_records_map_has(rest, rec_key(s[0]));
        assert(records_map(s).remove(rec_key(s[0])) =~= records_map(rest));
    } else {
        assert(rec_keys_distinct(rest)) by {
            assert(forall|j: int| 0 <= j < rest.len() ==> rest[j] == s[j + 1]);
        }
        assert(rest[i - 1] == s[i]);
        lemma_records_map_remove_at(rest, i - 1);
        assert(s.remove(i)[0] == s[0]);
        assert(s.remove(i).drop_first() =~= rest.remove(i - 1));
        assert(records_map(s.remove(i)) == records_map(rest).remove(rec_key(s[i])).insert(
            rec_key(s[0]),
            kv_map(s[0].texts),
        ));
        assert(rec_key(s[0]) != rec_key(s[i]));
        assert(records_map(rest).remove(rec_key(s[i])).insert(rec_key(s[0]), kv_map(s[0].texts))
            =~= records_map(rest).insert(rec_key(s[0]), kv_map(s[0].texts)).remove(rec_key(s[i])));
    }
}

/// Pushing a record with a fresh key inserts its key into the map.
pub proof fn lemma_records_map_push(s: Seq<RecordView>, r: RecordView)
    requires
        !rec_has(s, rec_key(r)),
    ensures
        records_map(s.push(r)) == records_map(s).insert(rec_key(r), kv_map(r.texts)),
    decreases s.len(),
{
    if s.len() == 0 {
        assert(s.push(r)[0] == r);
        assert(s.push(r).drop_first() =~= Seq::<RecordView>::empty());
        assert(records_map(s.push(r)) == records_map(Seq::<RecordView>::empty()).insert(
            rec_key(r),
            kv_map(r.texts),
        ));
    } else {
        let rest = s.drop_first();
        assert(!rec_has(rest, rec_key(r))) by {
            assert(forall|j: int| 0 <= j < rest.len() ==> rest[j] == s[j + 1]);
            if rec_has(rest, rec_key(r)) {
                let w = choose|w: int| 0 <= w < rest.len() && rec_key(rest[w]) == rec_key(r);
                assert(rec_key(s[w + 1]) == rec_key(r));
            }
        }
        lemma_records_map_push(rest, r);
        assert(s.push(r)[0] == s[0]);
        assert(s.push(r).drop_first() =~= rest.push(r));
        assert(records_map(s.push(r)) == records_map(rest).insert(
            rec_key(r),
            kv_map(r.texts),
        ).insert(rec_key(s[0]), kv_map(s[0].texts)));
        assert(rec_key(s[0]) != rec_key(r)) by {
            assert(0 <= 0 < s.len() && rec_key(s[0]) == rec_key(s[0]));
        }
        assert(records_map(rest).insert(rec_key(r), kv_map(r.texts)).insert(
            rec_key(s[0]),
            kv_map(s[0].texts),
        ) =~= records_map(rest).insert(rec_key(s[0]), kv_map(s[0].texts)).insert(
            rec_key(r),
            kv_map(r.texts),
        ));
    }
}

/// A well-formed record sequence yields a store map that meets the store's
/// pruning invariant.
pub proof fn lemma_records_map_inv(s: Seq<RecordView>)
    requires
        rec_keys_distinct(s),
        forall|i: int| 0 <= i < s.len() ==> rec_ok(#[trigger] s[i]),
    ensures
        store_inv(records_map(s)),
{
    let m = records_map(s);
    assert forall|k: (Seq<char>, Seq<char>)| #[trigger] m.contains_key(k) implies texts_map_ok(
        m[k],
    ) by {
        lemma_records_map_has(s, k);
        let i = choose|i: int| 0 <= i < s.len() && rec_key(s[i]) == k;
        lemma_records_map_index(s, i);
        assert(m[k] == kv_map(s[i].texts));
        lemma_kv_map_empty(s[i].texts);
        assert forall|l: Seq<char>| #[trigger] m[k].contains_key(l) implies m[k][l].len() > 0 by {
            lemma_kv_map_values_nonempty(s[i].texts, l);
        }
    }
}

/// One message: a namespace, a code, and all its translations by language.
pub struct MessageObject {
    pub namespace: String,
    pub code: String,
    pub message: MessageMap,
}

impl View for MessageObject {
    type V = RecordView;

    open spec fn view(&self) -> RecordView {
        RecordView { namespace: self.namespace@, code: self.code@, texts: self.message@ }
    }
}

impl DeepView for MessageObject {
    type V = RecordView;

    open spec fn deep_view(&self) -> RecordView {
        self.view()
    }
}

impl Clone for MessageObject {
    /// A clone stands for the same record.
    fn clone(&self) -> (r: Self)
        ensures
            r@ == self@,
    {
        MessageObject {
            namespace: self.namespace.clone(),
            code: self.code.clone(),
            message: self.message.clone(),
        }
    }
}

impl MessageObject {
    pub fn namespace(&self) -> (r: &str)
        ensures
            r@ == self@.namespace,
    {
        self.namespace.as_str()
    }

    pub fn code(&self) -> (r: &str)
        ensures
            r@ == self@.code,
    {
        self.code.as_str()
    }

    pub fn message(&self) -> (r: &MessageMap)
        ensures
            r@ == self@.texts,
    {
        &self.message
    }

    pub fn set_namespace(&mut self, namespace: String)
        ensures
            final(self)@ == (RecordView { namespace: namespace@, ..old(self)@ }),
    {
        self.namespace = namespace;
    }

    pub fn set_code(&mut self, code: String)
        ensures
            final(self)@ == (RecordView { code: code@, ..old(self)@ }),
    {
        self.code = code;
    }

    pub fn set_message(&mut self, message: MessageMap)
        ensures
            final(self)@ == (RecordView { texts: message@, ..old(self)@ }),
    {
        self.message = message;
    }
}

/// The store. All messages live in `entries`, one record per
/// (namespace, code); records with no text left are pruned away.
pub struct I18n {
    pub entries: Vec<MessageObject>,
    pub default_language: String,
    pub enable_change: bool,
    pub read_thread_count: i8,
}

impl I18n {
    /// The records the store holds, in their kept order.
    pub open spec fn records_view(&self) -> Seq<RecordView> {
        self.entries.deep_view()
    }

    /// The store's abstraction: (namespace, code) to language-to-text.
    pub open spec fn store_map(&self) -> StoreMap {
        records_map(self.records_view())
    }

    /// Well-formed store: unique (namespace, code) keys, and every kept
    /// record valid (unique languages, at least one entry, no empty text).
    pub open spec fn wf(&self) -> bool {
        &&& rec_keys_distinct(self.records_view())
        &&& forall|i: int|
            0 <= i < self.records_view().len() ==> rec_ok(#[trigger] self.records_view()[i])
    }

    /// The index of the record for (namespace, code), if one is kept.
    #[verifier::loop_isolation(false)]
    fn find_index(&self, namespace: &String, code: &String) -> (r: Option<usize>)
        ensures
            match r {
                Some(i) => i < self.records_view().len() && rec_key(self.records_view()[i as int])
                    == (namespace@, code@) && forall|j: int|
                    0 <= j < i ==> rec_key(self.records_view()[j]) != (namespace@, code@),
                None => !rec_has(self.records_view(), (namespace@, code@)),
            },
    {
        let n = self.entries.len();
        let mut i: usize = 0;
        while i < n
            invariant
                i <= n,
                forall|j: int|
                    0 <= j < i ==> rec_key(self.records_view()[j]) != (namespace@, code@),
            decreases n - i,
        {
            if self.entries[i].namespace == *namespace && self.entries[i].code == *code {
                return Some(i);
            }
            proof {
                assert(rec_key(self.records_view()[i as int]) != (namespace@, code@));
            }
            i += 1;
        }
        None
    }

    /// The text for the exact (namespace, code, language), with no fallback.
    fn get_exact(&self, namespace: &String, code: &String, language: &String) -> (r: Option<
        &String,
    >)
        ensures
            match r {
                Some(t) => store_has(self.store_map(), namespace@, code@, language@) && store_get(
                    self.store_map(),
                    namespace@,
                    code@,
                    language@,
                ) == t@,
                None => !store_has(self.store_map(), namespace@, code@, language@),
            },
    {
        match self.find_index(namespace, code) {
            Some(i) => {
                proof {
                    lemma_records_map_index(self.records_view(), i as int);
                }
                self.entries[i].message.get(language)
            },
            None => {
                proof {
                    lemma_records_map_has(self.records_view(), (namespace@, code@));
                }
                None
            },
        }
    }

    /// Look a message up: the exact language if the store holds it; else, if
    /// the requested language is not the default and a default language is
    /// set, the default language's text; else nothing.
    pub fn message(&self, namespace: &String, code: &String, language: &String) -> (r: Option<
        &String,
    >)
        ensures
            match r {
                Some(t) => store_lookup(
                    self.store_map(),
                    self.default_language@,
                    namespace@,
                    code@,
                    language@,
                ) == Some(t@),
                None => store_lookup(
                    self.store_map(),
                    self.default_language@,
                    namespace@,
                    code@,
                    language@,
                ) is None,
            },
    {
        let exact = self.get_exact(namespace, code, language);
        match exact {
            Some(t) => Some(t),
            None => {
                if !(*language == self.default_language) && !self.default_language.as_str()
                    .is_empty() {
                    self.get_exact(namespace, code, &self.default_language)
                } else {
                    None
                }
            },
        }
    }

    /// A snapshot of every kept record, in kept order.
    pub fn to_message_objects(&self) -> (r: Vec<MessageObject>)
        ensures
            r.deep_view() == self.records_view(),
    {
        let n = self.entries.len();
        let mut res: Vec<MessageObject> = Vec::new();
        let mut i: usize = 0;
        while i < n
            invariant
                n == self.entries@.len(),
                i <= n,
                res@.len() == i,
                res.deep_view() =~= self.records_view().take(i as int),
            decreases n - i,
        {
            let ghost prev = res.deep_view();
            let mo = self.entries[i].clone();
            res.push(mo);
            proof {
                assert(res@.len() == i + 1);
                assert(forall|j: int| 0 <= j < i ==> res.deep_view()[j] == prev[j]);
                assert(res.deep_view()[i as int] == self.records_view()[i as int]);
                assert(res.deep_view() =~= self.records_view().take(i as int + 1));
            }
            i += 1;
        }
        proof {
            assert(res.deep_view() =~= self.records_view());
        }
        res
    }

    /// Register one message. With change disabled this is a no-op; an empty
    /// text removes the entry and prunes an emptied record; a non-empty text
    /// is inserted or overwritten.
    pub fn register_message(
        &mut self,
        namespace: &String,
        code: &String,
        language: &String,
        message: &String,
    )
        requires
            old(self).wf(),
        ensures
            final(self).wf(),
            final(self).default_language == old(self).default_language,
            final(self).enable_change == old(self).enable_change,
            final(self).read_thread_count == old(self).read_thread_count,
            old(self).enable_change ==> final(self).store_map() == store_set(
                old(self).store_map(),
                namespace@,
                code@,
                language@,
                message@,
            ),
            !old(self).enable_change ==> *final(self) == *old(self),
    {
        if !self.enable_change {
            return ;
        }
        let ghost m0 = self.store_map();
        let ghost key = (namespace@, code@);
        let idx = self.find_index(namespace, code);
        if message.as_str().is_empty() {
            match idx {
                Some(i) => {
                    proof {
                        lemma_records_map_index(self.records_view(), i as int);
                        lemma_records_map_remove_at(self.records_view(), i as int);
                    }
                    let ghost rv0 = self.records_view();
                    let mut mo = self.entries.remove(i);
                    proof {
                        assert(self.records_view() =~= rv0.remove(i as int));
                        assert(rec_keys_distinct(self.records_view()) && forall|j: int|
                            0 <= j < self.records_view().len() ==> rec_ok(
                                #[trigger] self.records_view()[j],
                            )) by {
                            assert(forall|j: int|
                                0 <= j < i ==> self.records_view()[j] == rv0[j]);
                            assert(forall|j: int|
                                i <= j < self.records_view().len() ==> self.records_view()[j]
                                    == rv0[j + 1]);
                        }
                        lemma_kv_remove_values_nonempty(mo@.texts, language@);
                    }
                    mo.message.remove(language);
                    if mo.message.len() == 0 {
                        proof {
                            lemma_kv_map_empty(mo@.texts);
                            assert(self.store_map() =~= store_set(
                                m0,
                                namespace@,
                                code@,
                                language@,
                                message@,
                            ));
                        }
                    } else {
                        proof {
                            lemma_records_map_has(self.records_view(), key);
                            lemma_records_map_push(self.records_view(), mo@);
                            lemma_kv_map_empty(mo@.texts);
                        }
                        let ghost rv1 = self.records_view();
                        self.entries.push(mo);
                        proof {
                            assert(self.records_view() =~= rv1.push(mo@));
                            assert(self.store_map() =~= store_set(
                                m0,
                                namespace@,
                                code@,
                                language@,
                                message@,
                            ));
                            assert(forall|j: int|
                                0 <= j < rv1.len() ==> self.records_view()[j] == rv1[j]);
                            assert(self.records_view()[rv1.len() as int] == mo@);
                            assert(!rec_has(rv1, rec_key(mo@)));
                        }
                    }
                },
                None => {
                    proof {
                        lemma_records_map_has(self.records_view(), key);
                    }
                },
            }
        } else {
            match idx {
                Some(i) => {
                    proof {
                        lemma_records_map_index(self.records_view(), i as int);
                        lemma_records_map_remove_at(self.records_view(), i as int);
                    }
                    let ghost rv0 = self.records_view();
                    let mut mo = self.entries.remove(i);
                    proof {
                        assert(self.records_view() =~= rv0.remove(i as int));
                        assert(rec_keys_distinct(self.records_view()) && forall|j: int|
                            0 <= j < self.records_view().len() ==> rec_ok(
                                #[trigger] self.records_view()[j],
                            )) by {
                            assert(forall|j: int|
                                0 <= j < i ==> self.records_view()[j] == rv0[j]);
                            assert(forall|j: int|
                                i <= j < self.records_view().len() ==> self.records_view()[j]
                                    == rv0[j + 1]);
                        }
                        lemma_kv_insert_values_nonempty(mo@.texts, language@, message@);
                    }
                    mo.message.insert(language.clone(), message.clone());
                    proof {
                        lemma_records_map_has(self.records_view(), key);
                        lemma_records_map_push(self.records_view(), mo@);
                    }
                    let ghost rv1 = self.records_view();
                    self.entries.push(mo);
                    proof {
                        assert(self.records_view() =~= rv1.push(mo@));
                        assert(self.store_map() =~= store_set(
                            m0,
                            namespace@,
                            code@,
                            language@,
                            message@,
                        ));
                        assert(forall|j: int|
                            0 <= j < rv1.len() ==> self.records_view()[j] == rv1[j]);
                        assert(self.records_view()[rv1.len() as int] == mo@);
                    }
                },
                None => {
                    let mut mm = MessageMap::new();
                    mm.insert(language.clone(), message.clone());
                    let mo = MessageObject {
                        namespace: namespace.clone(),
                        code: code.clone(),
                        message: mm,
                    };
                    proof {
                        lemma_records_map_has(self.records_view(), key);
                        lemma_records_map_push(self.records_view(), mo@);
                        lemma_kv_insert_values_nonempty(
                            Seq::<(Seq<char>, Seq<char>)>::empty(),
                            language@,
                            message@,
                        );
                    }
                    let ghost rv1 = self.records_view();
                    self.entries.push(mo);
                    proof {
                        assert(self.records_view() =~= rv1.push(mo@));
                        assert(self.store_map() =~= store_set(
                            m0,
                            namespace@,
                            code@,
                            language@,
                            message@,
                        ));
                        assert(forall|j: int|
                            0 <= j < rv1.len() ==> self.records_view()[j] == rv1[j]);
                    }
                },
            }
        }
    }

    /// Register every (language, text) entry of one record, in entry order.
    pub fn register_message_object(&mut self, object: MessageObject)
        requires
            old(self).wf(),
        ensures
            final(self).wf(),
            final(self).default_language == old(self).default_language,
            final(self).enable_change == old(self).enable_change,
            final(self).read_thread_count == old(self).read_thread_count,
            old(self).enable_change ==> final(self).store_map() == register_record_spec(
                old(self).store_map(),
                object@,
            ),
            !old(self).enable_change ==> *final(self) == *old(self),
    {
        proof {
            assert(object@.texts.skip(0) =~= object@.texts);
        }
        let n = object.message.entries.len();
        let mut i: usize = 0;
        while i < n
            invariant
                n == object.message@.len(),
                i <= n,
                self.wf(),
                self.default_language == old(self).default_language,
                self.enable_change == old(self).enable_change,
                self.read_thread_count == old(self).read_thread_count,
                old(self).enable_change ==> register_texts_spec(
                    self.store_map(),
                    object@.namespace,
                    object@.code,
                    object@.texts.skip(i as int),
                ) == register_record_spec(old(self).store_map(), object@),
                !old(self).enable_change ==> *self == *old(self),
            decreases n - i,
        {
            let ghost pre = self.store_map();
            self.register_message(
                &object.namespace,
                &object.code,
                &object.message.entries[i].0,
                &object.message.entries[i].1,
            );
            proof {
                if old(self).enable_change {
                    assert(object@.texts.skip(i as int)[0] == object@.texts[i as int]);
                    assert(object@.texts.skip(i as int).drop_first() =~= object@.texts.skip(
                        i as int + 1,
                    ));
                    assert(self.store_map() == store_set(
                        pre,
                        object@.namespace,
                        object@.code,
                        object@.texts[i as int].0,
                        object@.texts[i as int].1,
                    ));
                }
            }
            i += 1;
        }
        proof {
            assert(object@.texts.skip(n as int) =~= Seq::<(Seq<char>, Seq<char>)>::empty());
        }
    }

    /// Register a sequence of records, in order.
    pub fn register_message_objects(&mut self, objects: Vec<MessageObject>)
        requires
            old(self).wf(),
        ensures
            final(self).wf(),
            final(self).default_language == old(self).default_language,
            final(self).enable_change == old(self).enable_change,
            final(self).read_thread_count == old(self).read_thread_count,
            old(self).enable_change ==> final(self).store_map() == register_records_spec(
                old(self).store_map(),
                objects.deep_view(),
            ),
            !old(self).enable_change ==> *final(self) == *old(self),
    {
        let ghost rs = objects.deep_view();
        proof {
            assert(rs.skip(0) =~= rs);
        }
        let n = objects.len();
        let mut i: usize = 0;
        while i < n
            invariant
                n == objects@.len(),
                objects.deep_view() == rs,
                i <= n,
                self.wf(),
                self.default_language == old(self).default_language,
                self.enable_change == old(self).enable_change,
                self.read_thread_count == old(self).read_thread_count,
                old(self).enable_change ==> register_records_spec(
                    self.store_map(),
                    rs.skip(i as int),
                ) == register_records_spec(old(self).store_map(), rs),
                !old(self).enable_change ==> *self == *old(self),
            decreases n - i,
        {
            let ghost pre = self.store_map();
            let object = objects[i].clone();
            proof {
                assert(object@ == rs[i as int]);
            }
            self.register_message_object(object);
            proof {
                if old(self).enable_change {
                    assert(rs.skip(i as int)[0] == rs[i as int]);
                    assert(rs.skip(i as int).drop_first() =~= rs.skip(i as int + 1));
                }
            }
            i += 1;
        }
        proof {
            assert(rs.skip(n as int) =~= Seq::<RecordView>::empty());
        }
    }

    /// Freeze the store: later registrations change nothing.
    pub fn disable_change(&mut self)
        ensures
            final(self).enable_change == false,
            final(self).entries == old(self).entries,
            final(self).default_language == old(self).default_language,
            final(self).read_thread_count == old(self).read_thread_count,
    {
        self.enable_change = false;
    }

    /// Allow registrations again.
    pub fn enable_change(&mut self)
        ensures
            final(self).enable_change == true,
            final(self).entries == old(self).entries,
            final(self).default_language == old(self).default_language,
            final(self).read_thread_count == old(self).read_thread_count,
    {
        self.enable_change = true;
    }

    pub fn is_enable_change(&self) -> (r: bool)
        ensures
            r == self.enable_change,
    {
        self.enable_change
    }

    pub fn set_default_language(&mut self, default_language: String)
        ensures
            final(self).default_language == default_language,
            final(self).entries == old(self).entries,
            final(self).enable_change == old(self).enable_change,
            final(self).read_thread_count == old(self).read_thread_count,
    {
        self.default_language = default_language;
    }

    /// An empty store with no default language, open for change.
    pub fn default() -> (r: Self)
        ensures
            r.wf(),
            r.store_map() == Map::<(Seq<char>, Seq<char>), TextMap>::empty(),
            r.records_view().len() == 0,
            r.default_language@ == Seq::<char>::empty(),
            r.enable_change == true,
    {
        I18n::new(String::new(), true, 0)
    }

    /// An empty store. The reader count is kept for callers that budget
    /// concurrent readers; a non-positive count falls back to 5.
    pub fn new(default_language: String, enable_change: bool, read_thread_count: i8) -> (r: Self)
        ensures
            r.wf(),
            r.store_map() == Map::<(Seq<char>, Seq<char>), TextMap>::empty(),
            r.records_view().len() == 0,
            r.default_language == default_language,
            r.enable_change == enable_change,
            r.read_thread_count == (if read_thread_count <= 0 {
                5i8
            } else {
                read_thread_count
            }),
    {
        let count: i8 = if read_thread_count <= 0 {
            5
        } else {
            read_thread_count
        };
        let r = I18n {
            entries: Vec::new(),
            default_language,
            enable_change,
            read_thread_count: count,
        };
        proof {
            assert(r.records_view() =~= Seq::<RecordView>::empty());
        }
        r
    }
}

} // verus!

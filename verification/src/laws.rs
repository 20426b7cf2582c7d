//! The laws the store and the codec obey, stated over their abstractions and
//! proved: what one registration does to a later lookup, that pruning leaves
//! no empty branch behind, and that decoding an encoding registers back to
//! the very store map the records came from.

use vstd::prelude::*;

use crate::codec::add_lang;
use crate::codec::add_langs_upto;
use crate::codec::decode_data;
use crate::codec::decode_row;
use crate::codec::decode_spec;
use crate::codec::encode_spec;
use crate::codec::header_of;
use crate::codec::header_row;
use crate::codec::header_upto;
use crate::codec::row_of;
use crate::codec::row_texts;
use crate::codec::row_texts_upto;
use crate::i18n::RecordView;
use crate::i18n::StoreMap;
use crate::i18n::rec_has;
use crate::i18n::rec_key;
use crate::i18n::rec_keys_distinct;
use crate::i18n::rec_ok;
use crate::i18n::records_map;
use crate::i18n::register_record_spec;
use crate::i18n::register_records_spec;
use crate::i18n::register_texts_spec;
use crate::i18n::lemma_records_map_has;
use crate::i18n::store_has;
use crate::i18n::store_inv;
use crate::i18n::store_lookup;
use crate::i18n::store_set;
use crate::i18n::texts_map_ok;
use crate::text_map::TextMap;
use crate::text_map::Texts;
use crate::text_map::kv_distinct;
use crate::text_map::kv_map;
use crate::text_map::lemma_kv_insert_at_end;
use crate::text_map::lemma_kv_map_empty;
use crate::text_map::lemma_kv_map_has;
use crate::text_map::lemma_kv_map_index;
use crate::text_map::lemma_kv_map_values_nonempty;

verus! {

/// After registering a non-empty text on a mutable store, looking the same
/// namespace, code and language up returns exactly that text, whatever the
/// default language.
pub proof fn lemma_set_then_lookup(
    m: StoreMap,
    default: Seq<char>,
    n: Seq<char>,
    c: Seq<char>,
    l: Seq<char>,
    t: Seq<char>,
)
    requires
        t.len() > 0,
    ensures
        store_lookup(store_set(m, n, c, l, t), default, n, c, l) == Some(t),
{
    let m2 = store_set(m, n, c, l, t);
    assert(m2.contains_key((n, c)));
    assert(m2[(n, c)].contains_key(l));
    assert(m2[(n, c)][l] == t);
}

/// Registering any text keeps the pruning invariant: no (namespace, code)
/// is left behind with an empty table or an empty text.
pub proof fn lemma_store_set_inv(
    m: StoreMap,
    n: Seq<char>,
    c: Seq<char>,
    l: Seq<char>,
    t: Seq<char>,
)
    requires
        store_inv(m),
    ensures
        store_inv(store_set(m, n, c, l, t)),
{
    let m2 = store_set(m, n, c, l, t);
    assert forall|k: (Seq<char>, Seq<char>)| #[trigger] m2.contains_key(k) implies texts_map_ok(
        m2[k],
    ) by {
        if t.len() == 0 {
            if m.contains_key((n, c)) {
                let inner = m[(n, c)].remove(l);
                if inner == Map::<Seq<char>, Seq<char>>::empty() {
                } else {
                    if k == (n, c) {
                        assert(texts_map_ok(m[(n, c)]));
                        assert(forall|q: Seq<char>| #[trigger] inner.contains_key(q)
                            ==> m[(n, c)].contains_key(q));
                    }
                }
            }
        } else {
            if k == (n, c) {
                let base: TextMap = if m.contains_key((n, c)) {
                    m[(n, c)]
                } else {
                    Map::empty()
                };
                assert(m2[k] == base.insert(l, t));
                assert(m2[k].contains_key(l));
                assert(m2[k] != Map::<Seq<char>, Seq<char>>::empty()) by {
                    assert(!Map::<Seq<char>, Seq<char>>::empty().contains_key(l));
                }
                assert(forall|q: Seq<char>| #[trigger] m2[k].contains_key(q) && q != l
                    ==> base.contains_key(q) && m2[k][q] == base[q]);
            }
        }
    }
}

/// After registering the empty text, the exact entry is gone; and when no
/// set default language could answer in its place, the lookup itself is
/// empty-handed.
pub proof fn lemma_clear_then_lookup(
    m: StoreMap,
    default: Seq<char>,
    n: Seq<char>,
    c: Seq<char>,
    l: Seq<char>,
)
    requires
        store_inv(m),
        default.len() == 0 || l == default || !store_has(
            store_set(m, n, c, l, Seq::<char>::empty()),
            n,
            c,
            default,
        ),
    ensures
        !store_has(store_set(m, n, c, l, Seq::<char>::empty()), n, c, l),
        store_lookup(store_set(m, n, c, l, Seq::<char>::empty()), default, n, c, l) is None,
        store_inv(store_set(m, n, c, l, Seq::<char>::empty())),
{
    let m2 = store_set(m, n, c, l, Seq::<char>::empty());
    lemma_store_set_inv(m, n, c, l, Seq::<char>::empty());
    assert(!store_has(m2, n, c, l)) by {
        if m.contains_key((n, c)) {
            let inner = m[(n, c)].remove(l);
            assert(!inner.contains_key(l));
        }
    }
}

/// The header list never holds a language twice.
pub open spec fn langs_distinct(h: Seq<Seq<char>>) -> bool {
    forall|a: int, b: int| 0 <= a < b < h.len() ==> h[a] != h[b]
}

pub proof fn lemma_add_lang_props(h: Seq<Seq<char>>, l: Seq<char>)
    requires
        langs_distinct(h),
    ensures
        langs_distinct(add_lang(h, l)),
        add_lang(h, l).contains(l),
        forall|x: Seq<char>| h.contains(x) ==> #[trigger] add_lang(h, l).contains(x),
        forall|x: Seq<char>| #[trigger] add_lang(h, l).contains(x) ==> h.contains(x) || x == l,
{
    let r = add_lang(h, l);
    if h.contains(l) {
    } else {
        assert(r[h.len() as int] == l);
        assert(r.contains(l));
        assert forall|x: Seq<char>| h.contains(x) implies #[trigger] r.contains(x) by {
            let w = choose|w: int| 0 <= w < h.len() && h[w] == x;
            assert(r[w] == x);
        }
        assert forall|x: Seq<char>| #[trigger] r.contains(x) implies h.contains(x) || x == l by {
            let w = choose|w: int| 0 <= w < r.len() && r[w] == x;
            if w < h.len() {
                assert(h[w] == x);
            }
        }
        assert forall|a: int, b: int| 0 <= a < b < r.len() implies r[a] != r[b] by {
            if b == h.len() {
                assert(r[a] == h[a]);
                if r[a] == l {
                    assert(h.contains(l));
                }
            }
        }
    }
}

pub proof fn lemma_add_langs_upto_props(h: Seq<Seq<char>>, ts: Texts, k: int)
    requires
        langs_distinct(h),
        0 <= k <= ts.len(),
    ensures
        langs_distinct(add_langs_upto(h, ts, k)),
        forall|x: Seq<char>| h.contains(x) ==> #[trigger] add_langs_upto(h, ts, k).contains(x),
        forall|e: int| 0 <= e < k ==> add_langs_upto(h, ts, k).contains(#[trigger] ts[e].0),
    decreases k,
{
    if k <= 0 {
    } else {
        lemma_add_langs_upto_props(h, ts, k - 1);
        lemma_add_lang_props(add_langs_upto(h, ts, k - 1), ts[k - 1].0);
    }
}

pub proof fn lemma_header_upto_props(records: Seq<RecordView>, n: int)
    requires
        0 <= n <= records.len(),
    ensures
        langs_distinct(header_upto(records, n)),
        forall|i: int, e: int|
            0 <= i < n && 0 <= e < records[i].texts.len() ==> header_upto(records, n).contains(
                #[trigger] records[i].texts[e].0,
            ),
    decreases n,
{
    if n <= 0 {
    } else {
        lemma_header_upto_props(records, n - 1);
        let prev = header_upto(records, n - 1);
        lemma_add_langs_upto_props(prev, records[n - 1].texts, records[n - 1].texts.len() as int);
    }
}

/// Every language any record carries stands in the header, and the header
/// holds no duplicates.
pub proof fn lemma_header_of_props(records: Seq<RecordView>)
    ensures
        langs_distinct(header_of(records)),
        forall|i: int, e: int|
            0 <= i < records.len() && 0 <= e < records[i].texts.len() ==> header_of(
                records,
            ).contains(#[trigger] records[i].texts[e].0),
{
    lemma_header_upto_props(records, records.len() as int);
}

/// The map of an entry sequence's non-empty texts only: what registering the
/// entries one by one leaves in the store.
pub open spec fn kv_map_pos(ts: Texts) -> TextMap
    decreases ts.len(),
{
    if ts.len() == 0 {
        Map::empty()
    } else if ts[0].1.len() > 0 {
        kv_map_pos(ts.drop_first()).insert(ts[0].0, ts[0].1)
    } else {
        kv_map_pos(ts.drop_first())
    }
}

proof fn lemma_kv_map_pos_has(ts: Texts, l: Seq<char>)
    ensures
        kv_map_pos(ts).contains_key(l) <==> exists|e: int|
            0 <= e < ts.len() && ts[e].0 == l && ts[e].1.len() > 0,
    decreases ts.len(),
{
    if ts.len() == 0 {
    } else {
        let rest = ts.drop_first();
        lemma_kv_map_pos_has(rest, l);
        if exists|e: int| 0 <= e < rest.len() && rest[e].0 == l && rest[e].1.len() > 0 {
            let e = choose|e: int| 0 <= e < rest.len() && rest[e].0 == l && rest[e].1.len() > 0;
            assert(ts[e + 1].0 == l && ts[e + 1].1.len() > 0);
        }
        if (exists|e: int| 0 <= e < ts.len() && ts[e].0 == l && ts[e].1.len() > 0) && !(ts[0].0
            == l && ts[0].1.len() > 0) {
            let e = choose|e: int| 0 <= e < ts.len() && ts[e].0 == l && ts[e].1.len() > 0;
            assert(rest[e - 1].0 == l && rest[e - 1].1.len() > 0);
        }
    }
}

proof fn lemma_kv_map_pos_index(ts: Texts, e: int)
    requires
        0 <= e < ts.len(),
        ts[e].1.len() > 0,
        forall|j: int| 0 <= j < e ==> ts[j].0 != ts[e].0,
    ensures
        kv_map_pos(ts).contains_key(ts[e].0),
        kv_map_pos(ts)[ts[e].0] == ts[e].1,
    decreases ts.len(),
{
    if e == 0 {
    } else {
        assert(ts.drop_first()[e - 1] == ts[e]);
        assert(forall|j: int| 0 <= j < e - 1 ==> ts.drop_first()[j] == ts[j + 1]);
        lemma_kv_map_pos_index(ts.drop_first(), e - 1);
    }
}

/// Registering an entry sequence with fresh, distinct languages joins its
/// non-empty texts onto whatever already stands under (namespace, code).
proof fn lemma_register_texts_steps(m: StoreMap, n: Seq<char>, c: Seq<char>, ts: Texts)
    requires
        kv_distinct(ts),
        m.contains_key((n, c)) ==> m[(n, c)] != Map::<Seq<char>, Seq<char>>::empty(),
        m.contains_key((n, c)) ==> forall|e: int|
            0 <= e < ts.len() ==> !m[(n, c)].contains_key(#[trigger] ts[e].0),
    ensures
        ({
            let base: TextMap = if m.contains_key((n, c)) {
                m[(n, c)]
            } else {
                Map::empty()
            };
            let joined = base.union_prefer_right(kv_map_pos(ts));
            register_texts_spec(m, n, c, ts) == (if joined == Map::<Seq<char>, Seq<char>>::empty() {
                m
            } else {
                m.insert((n, c), joined)
            })
        }),
    decreases ts.len(),
{
    let key = (n, c);
    let base: TextMap = if m.contains_key(key) {
        m[key]
    } else {
        Map::empty()
    };
    let joined = base.union_prefer_right(kv_map_pos(ts));
    if ts.len() == 0 {
        assert(joined =~= base);
        if m.contains_key(key) {
            assert(joined != Map::<Seq<char>, Seq<char>>::empty());
            assert(m.insert(key, joined) =~= m);
        } else {
            assert(joined =~= Map::<Seq<char>, Seq<char>>::empty());
        }
    } else {
        let l0 = ts[0].0;
        let v0 = ts[0].1;
        let rest = ts.drop_first();
        assert(kv_distinct(rest) && forall|j: int| 0 <= j < rest.len() ==> rest[j] == ts[j + 1])
            by {
            assert(forall|j: int| 0 <= j < rest.len() ==> rest[j] == ts[j + 1]);
        }
        assert(forall|j: int| 0 <= j < rest.len() ==> #[trigger] rest[j].0 != l0);
        lemma_kv_map_pos_has(rest, l0);
        if v0.len() > 0 {
            let m1 = store_set(m, n, c, l0, v0);
            let base1 = base.insert(l0, v0);
            assert(m1 == m.insert(key, base1));
            assert(base1 != Map::<Seq<char>, Seq<char>>::empty()) by {
                assert(base1.contains_key(l0));
            }
            lemma_register_texts_steps(m1, n, c, rest);
            let joined1 = base1.union_prefer_right(kv_map_pos(rest));
            assert(joined1.contains_key(l0) && joined1 != Map::<Seq<char>, Seq<char>>::empty());
            assert(register_texts_spec(m, n, c, ts) == m1.insert(key, joined1));
            assert(m1.insert(key, joined1) =~= m.insert(key, joined1));
            assert(joined =~= joined1);
            assert(joined != Map::<Seq<char>, Seq<char>>::empty());
        } else {
            let m1 = store_set(m, n, c, l0, v0);
            assert(m1 == m) by {
                if m.contains_key(key) {
                    let inner = m[key].remove(l0);
                    assert(inner =~= base);
                    assert(inner != Map::<Seq<char>, Seq<char>>::empty());
                    assert(m.insert(key, inner) =~= m);
                }
            }
            lemma_register_texts_steps(m, n, c, rest);
            assert(kv_map_pos(ts) == kv_map_pos(rest));
        }
    }
}

/// A record's full data row, read back as entries: one entry per header
/// column, the record's text there or the empty string.
pub open spec fn full_texts(h: Seq<Seq<char>>, t: TextMap) -> Texts {
    Seq::new(
        h.len(),
        |j: int|
            (
                h[j],
                if t.contains_key(h[j]) {
                    t[h[j]]
                } else {
                    Seq::<char>::empty()
                },
            ),
    )
}

/// Decoding a record's encoded row reads back exactly its full entry list.
proof fn lemma_row_texts_upto_full(h: Seq<Seq<char>>, r: RecordView, c: int)
    requires
        langs_distinct(h),
        2 <= c <= h.len() + 2,
    ensures
        row_texts_upto(h, row_of(h, r), c) == full_texts(h, kv_map(r.texts)).take(c - 2),
    decreases c,
{
    let row = row_of(h, r);
    let fts = full_texts(h, kv_map(r.texts));
    if c == 2 {
        assert(row_texts_upto(h, row, 2) =~= fts.take(0));
    } else {
        lemma_row_texts_upto_full(h, r, c - 1);
        let prev = row_texts_upto(h, row, c - 1);
        assert(prev == fts.take(c - 3));
        assert(forall|j: int| 0 <= j < c - 3 ==> prev[j] == fts[j]);
        assert(forall|j: int| 0 <= j < c - 3 ==> #[trigger] prev[j].0 == h[j]);
        assert(forall|j: int| 0 <= j < c - 3 ==> #[trigger] prev[j].0 != h[c - 3]);
        lemma_kv_insert_at_end(prev, h[c - 3], row[c - 1]);
        assert(row[c - 1] == fts[c - 3].1);
        assert(row_texts_upto(h, row, c) == prev.push((h[c - 3], row[c - 1])));
        assert(prev.push((h[c - 3], row[c - 1])) =~= fts.take(c - 2));
    }
}

/// The non-empty texts of a record's full entry list are the record's map,
/// when every language of the map stands in the header.
proof fn lemma_full_texts_pos(h: Seq<Seq<char>>, t: TextMap)
    requires
        langs_distinct(h),
        forall|l: Seq<char>| #[trigger] t.contains_key(l) ==> h.contains(l),
        forall|l: Seq<char>| #[trigger] t.contains_key(l) ==> t[l].len() > 0,
    ensures
        kv_map_pos(full_texts(h, t)) == t,
{
    let fts = full_texts(h, t);
    let pos = kv_map_pos(fts);
    assert forall|l: Seq<char>| #[trigger] t.contains_key(l) implies pos.contains_key(l)
        && pos[l] == t[l] by {
        let w = choose|w: int| 0 <= w < h.len() && h[w] == l;
        assert(fts[w] == (l, t[l]));
        assert(forall|j: int| 0 <= j < w ==> fts[j].0 == h[j] && h[j] != l);
        lemma_kv_map_pos_index(fts, w);
    }
    assert forall|l: Seq<char>| #[trigger] pos.contains_key(l) implies t.contains_key(l) by {
        lemma_kv_map_pos_has(fts, l);
        let e = choose|e: int| 0 <= e < fts.len() && fts[e].0 == l && fts[e].1.len() > 0;
        assert(fts[e].0 == h[e]);
        if !t.contains_key(h[e]) {
            assert(fts[e].1 == Seq::<char>::empty());
        }
    }
    assert(pos =~= t);
}

/// Decoding the encoded row of a valid record gives one record back: the
/// same namespace and code, carrying the full entry list.
proof fn lemma_decode_row_full(h: Seq<Seq<char>>, r: RecordView)
    requires
        langs_distinct(h),
        h.len() > 0,
    ensures
        decode_row(h, row_of(h, r)) == seq![
            RecordView { namespace: r.namespace, code: r.code, texts: full_texts(h, kv_map(r.texts)) },
        ],
{
    let row = row_of(h, r);
    assert(row.len() == h.len() + 2);
    lemma_row_texts_upto_full(h, r, h.len() + 2 as int);
    let fts = full_texts(h, kv_map(r.texts));
    assert(row_texts(h, row) == fts.take(h.len() as int));
    assert(fts.take(h.len() as int) =~= fts);
    assert(row[0] == r.namespace);
    assert(row[1] == r.code);
    assert(decode_row(h, row) =~= seq![
        RecordView { namespace: r.namespace, code: r.code, texts: fts },
    ]);
}

/// Inserting each record's map in order, the shape a fresh registration run
/// takes.
pub open spec fn ins_all(m: StoreMap, rs: Seq<RecordView>) -> StoreMap
    decreases rs.len(),
{
    if rs.len() == 0 {
        m
    } else {
        ins_all(m.insert(rec_key(rs[0]), kv_map(rs[0].texts)), rs.drop_first())
    }
}

/// Registering the decoded form of every record's encoded row inserts each
/// record's map in order.
proof fn lemma_register_encoded(m: StoreMap, h: Seq<Seq<char>>, rs: Seq<RecordView>)
    requires
        langs_distinct(h),
        h.len() > 0,
        rec_keys_distinct(rs),
        forall|i: int| 0 <= i < rs.len() ==> rec_ok(#[trigger] rs[i]),
        forall|i: int, e: int|
            0 <= i < rs.len() && 0 <= e < rs[i].texts.len() ==> h.contains(
                #[trigger] rs[i].texts[e].0,
            ),
        forall|i: int| 0 <= i < rs.len() ==> !m.contains_key(rec_key(#[trigger] rs[i])),
    ensures
        register_records_spec(
            m,
            decode_data(h, rs.map_values(|r: RecordView| row_of(h, r))),
        ) == ins_all(m, rs),
    decreases rs.len(),
{
    let rows = rs.map_values(|r: RecordView| row_of(h, r));
    if rs.len() == 0 {
        assert(rows.len() == 0);
        assert(decode_data(h, rows) =~= Seq::<RecordView>::empty());
    } else {
        let r0 = rs[0];
        let key0 = rec_key(r0);
        let t0 = kv_map(r0.texts);
        assert(rows[0] == row_of(h, r0));
        lemma_decode_row_full(h, r0);
        let d0 = RecordView {
            namespace: r0.namespace,
            code: r0.code,
            texts: full_texts(h, t0),
        };
        let rest = rs.drop_first();
        assert(rows.drop_first() =~= rest.map_values(|r: RecordView| row_of(h, r)));
        let decoded = decode_data(h, rows);
        assert(decoded == seq![d0] + decode_data(h, rows.drop_first()));
        assert(decoded.len() > 0);
        assert(decoded[0] == d0);
        assert(decoded.drop_first() =~= decode_data(h, rows.drop_first()));
        // Registering the first decoded record inserts the first record's map.
        assert forall|l: Seq<char>| #[trigger] t0.contains_key(l) implies h.contains(l) by {
            lemma_kv_map_has(r0.texts, l);
            let e = choose|e: int| 0 <= e < r0.texts.len() && r0.texts[e].0 == l;
            assert(h.contains(r0.texts[e].0));
        }
        assert forall|l: Seq<char>| #[trigger] t0.contains_key(l) implies t0[l].len() > 0 by {
            lemma_kv_map_values_nonempty(r0.texts, l);
        }
        lemma_full_texts_pos(h, t0);
        assert(kv_distinct(d0.texts)) by {
            assert(forall|a: int|
                0 <= a < full_texts(h, t0).len() ==> (#[trigger] full_texts(h, t0)[a]).0 == h[a]);
        }
        lemma_register_texts_steps(m, r0.namespace, r0.code, d0.texts);
        lemma_kv_map_empty(r0.texts);
        assert(t0 != Map::<Seq<char>, Seq<char>>::empty());
        let joined = Map::<Seq<char>, Seq<char>>::empty().union_prefer_right(kv_map_pos(d0.texts));
        assert(joined =~= t0);
        assert(register_record_spec(m, d0) == m.insert(key0, t0));
        let m1 = m.insert(key0, t0);
        // The remaining records still have distinct, fresh keys.
        assert(rec_keys_distinct(rest) && forall|i: int|
            0 <= i < rest.len() ==> rec_ok(#[trigger] rest[i])) by {
            assert(forall|i: int| 0 <= i < rest.len() ==> rest[i] == rs[i + 1]);
        }
        assert(forall|i: int, e: int|
            0 <= i < rest.len() && 0 <= e < rest[i].texts.len() ==> h.contains(
                #[trigger] rest[i].texts[e].0,
            )) by {
            assert(forall|i: int| 0 <= i < rest.len() ==> rest[i] == rs[i + 1]);
        }
        assert(forall|i: int| 0 <= i < rest.len() ==> !m1.contains_key(rec_key(#[trigger] rest[i])))
            by {
            assert(forall|i: int| 0 <= i < rest.len() ==> rest[i] == rs[i + 1]);
        }
        lemma_register_encoded(m1, h, rest);
        assert(register_records_spec(m, decoded) == register_records_spec(
            register_record_spec(m, d0),
            decoded.drop_first(),
        ));
    }
}

/// Inserting fresh, distinct record maps lays them over the base map.
proof fn lemma_ins_all_records_map(m: StoreMap, rs: Seq<RecordView>)
    requires
        rec_keys_distinct(rs),
        forall|i: int| 0 <= i < rs.len() ==> !m.contains_key(rec_key(#[trigger] rs[i])),
    ensures
        ins_all(m, rs) == m.union_prefer_right(records_map(rs)),
    decreases rs.len(),
{
    if rs.len() == 0 {
        assert(m.union_prefer_right(records_map(rs)) =~= m);
    } else {
        let key0 = rec_key(rs[0]);
        let t0 = kv_map(rs[0].texts);
        let rest = rs.drop_first();
        let m1 = m.insert(key0, t0);
        assert(rec_keys_distinct(rest) && forall|i: int|
            0 <= i < rest.len() ==> !m1.contains_key(rec_key(#[trigger] rest[i]))) by {
            assert(forall|i: int| 0 <= i < rest.len() ==> rest[i] == rs[i + 1]);
        }
        lemma_ins_all_records_map(m1, rest);
        assert(!rec_has(rest, key0)) by {
            assert(forall|i: int| 0 <= i < rest.len() ==> rest[i] == rs[i + 1]);
            if rec_has(rest, key0) {
                let w = choose|w: int| 0 <= w < rest.len() && rec_key(rest[w]) == key0;
                assert(rec_key(rs[w + 1]) == key0);
            }
        }
        lemma_records_map_has(rest, key0);
        assert(m1.union_prefer_right(records_map(rest)) =~= m.union_prefer_right(
            records_map(rs),
        ));
    }
}

/// The round-trip law: encoding well-formed records, decoding the rows back
/// and registering the result into an empty store rebuilds exactly the map
/// the records stand for.
pub proof fn lemma_encode_decode_register(rs: Seq<RecordView>)
    requires
        rec_keys_distinct(rs),
        forall|i: int| 0 <= i < rs.len() ==> rec_ok(#[trigger] rs[i]),
    ensures
        register_records_spec(
            Map::empty(),
            decode_spec(encode_spec(rs)),
        ) == records_map(rs),
{
    let m0 = StoreMap::empty();
    if rs.len() == 0 {
        assert(encode_spec(rs).len() == 0);
        assert(records_map(rs) =~= m0);
    } else {
        let h = header_of(rs);
        lemma_header_of_props(rs);
        assert(h.len() > 0) by {
            assert(rec_ok(rs[0]));
            assert(h.contains(rs[0].texts[0].0));
        }
        let rows = rs.map_values(|r: RecordView| row_of(h, r));
        let enc = encode_spec(rs);
        assert(enc == seq![header_row(h)] + rows);
        assert(enc.len() == 1 + rs.len());
        assert(enc[0] == header_row(h));
        assert(enc[0].len() == h.len() + 2);
        assert(enc[0].skip(2) =~= h);
        assert(enc.drop_first() =~= rows);
        assert(decode_spec(enc) == decode_data(h, rows));
        lemma_register_encoded(m0, h, rs);
        lemma_ins_all_records_map(m0, rs);
        assert(m0.union_prefer_right(records_map(rs)) =~= records_map(rs));
    }
}

/// Re-import keeps every lookup: after encoding a store's records, decoding
/// the rows and registering them into an empty store, every
/// (namespace, code, language) lookup answers as it did before, under the
/// same default language.
pub proof fn lemma_round_trip_lookup(
    rs: Seq<RecordView>,
    default: Seq<char>,
    n: Seq<char>,
    c: Seq<char>,
    l: Seq<char>,
)
    requires
        rec_keys_distinct(rs),
        forall|i: int| 0 <= i < rs.len() ==> rec_ok(#[trigger] rs[i]),
    ensures
        store_lookup(
            register_records_spec(Map::empty(), decode_spec(encode_spec(rs))),
            default,
            n,
            c,
            l,
        ) == store_lookup(records_map(rs), default, n, c, l),
{
    lemma_encode_decode_register(rs);
}

} // verus!

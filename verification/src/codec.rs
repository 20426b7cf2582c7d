//! The conversion between records and the flat tabular shape: a header row
//! whose columns from index 2 on name languages, then one row per
//! (namespace, code) with that row's texts in the header's column order.

use vstd::prelude::*;

use crate::i18n::MessageObject;
use crate::i18n::RecordView;
use crate::text_map::MessageMap;
use crate::text_map::Texts;
use crate::text_map::kv_distinct;
use crate::text_map::kv_insert;
use crate::text_map::kv_map;

verus! {

/// The texts a data row declares through columns 2 to `c` (excluded), read
/// left to right; a column beyond the header is ignored, and a later column
/// under the same language overwrites an earlier one.
pub open spec fn row_texts_upto(header: Seq<Seq<char>>, row: Seq<Seq<char>>, c: int) -> Texts
    decreases c,
{
    if c <= 2 {
        Seq::empty()
    } else {
        let prev = row_texts_upto(header, row, c - 1);
        if c - 3 < header.len() {
            kv_insert(prev, header[c - 3], row[c - 1])
        } else {
            prev
        }
    }
}

/// The texts a whole data row declares.
pub open spec fn row_texts(header: Seq<Seq<char>>, row: Seq<Seq<char>>) -> Texts {
    row_texts_upto(header, row, row.len() as int)
}

/// The records one data row yields: none when the row is too short to carry
/// a text or declares none, else the one record it spells out.
pub open spec fn decode_row(header: Seq<Seq<char>>, row: Seq<Seq<char>>) -> Seq<RecordView> {
    if row.len() <= 2 {
        Seq::empty()
    } else {
        let ts = row_texts(header, row);
        if ts.len() == 0 {
            Seq::empty()
        } else {
            seq![RecordView { namespace: row[0], code: row[1], texts: ts }]
        }
    }
}

/// The records of all data rows, in row order.
pub open spec fn decode_data(header: Seq<Seq<char>>, rows: Seq<Seq<Seq<char>>>) -> Seq<RecordView>
    decreases rows.len(),
{
    if rows.len() == 0 {
        Seq::empty()
    } else {
        decode_row(header, rows[0]) + decode_data(header, rows.drop_first())
    }
}

/// Decoding a table: the first row is the header; without one of length at
/// least 3 (so, with at least one language column) nothing is decoded.
pub open spec fn decode_spec(rows: Seq<Seq<Seq<char>>>) -> Seq<RecordView> {
    if rows.len() == 0 || rows[0].len() <= 2 {
        Seq::empty()
    } else {
        decode_data(rows[0].skip(2), rows.drop_first())
    }
}

/// Every record's texts have distinct language keys.
pub open spec fn records_texts_distinct(s: Seq<RecordView>) -> bool {
    forall|i: int| 0 <= i < s.len() ==> kv_distinct(#[trigger] s[i].texts)
}

/// Every record declares at least one text.
pub open spec fn records_texts_nonempty(s: Seq<RecordView>) -> bool {
    forall|i: int| 0 <= i < s.len() ==> (#[trigger] s[i].texts).len() > 0
}

/// A language list grown by one language, deduplicated by first occurrence.
pub open spec fn add_lang(h: Seq<Seq<char>>, l: Seq<char>) -> Seq<Seq<char>> {
    if h.contains(l) {
        h
    } else {
        h.push(l)
    }
}

/// A language list grown by a record's first `k` entries, in entry order.
pub open spec fn add_langs_upto(h: Seq<Seq<char>>, ts: Texts, k: int) -> Seq<Seq<char>>
    decreases k,
{
    if k <= 0 {
        h
    } else {
        add_lang(add_langs_upto(h, ts, k - 1), ts[k - 1].0)
    }
}

/// The header languages after the first `n` records, in first-occurrence
/// order across records and, within one record, in entry order.
pub open spec fn header_upto(records: Seq<RecordView>, n: int) -> Seq<Seq<char>>
    decreases n,
{
    if n <= 0 {
        Seq::empty()
    } else {
        add_langs_upto(header_upto(records, n - 1), records[n - 1].texts, records[n - 1].texts.len() as int)
    }
}

/// The header languages of a record sequence.
pub open spec fn header_of(records: Seq<RecordView>) -> Seq<Seq<char>> {
    header_upto(records, records.len() as int)
}

/// The header row: the two fixed column names, then the languages.
pub open spec fn header_row(header: Seq<Seq<char>>) -> Seq<Seq<char>> {
    seq!["namespace"@, "code"@] + header
}

/// A record's data row: namespace, code, then per header column the record's
/// text under that column's language, or the empty string.
pub open spec fn row_of(header: Seq<Seq<char>>, r: RecordView) -> Seq<Seq<char>> {
    Seq::new(
        header.len() + 2,
        |i: int|
            if i == 0 {
                r.namespace
            } else if i == 1 {
                r.code
            } else if kv_map(r.texts).contains_key(header[i - 2]) {
                kv_map(r.texts)[header[i - 2]]
            } else {
                Seq::<char>::empty()
            },
    )
}

/// Encoding records: nothing for no records; else the header row over all
/// languages seen, then one padded data row per record, in record order.
pub open spec fn encode_spec(records: Seq<RecordView>) -> Seq<Seq<Seq<char>>> {
    if records.len() == 0 {
        Seq::empty()
    } else {
        seq![header_row(header_of(records))] + records.map_values(
            |r: RecordView| row_of(header_of(records), r),
        )
    }
}

/// Decoding one more row appends that row's records.
pub proof fn lemma_decode_data_push(
    header: Seq<Seq<char>>,
    rows: Seq<Seq<Seq<char>>>,
    row: Seq<Seq<char>>,
)
    ensures
        decode_data(header, rows.push(row)) == decode_data(header, rows) + decode_row(
            header,
            row,
        ),
    decreases rows.len(),
{
    if rows.len() == 0 {
        assert(rows.push(row)[0] == row);
        assert(rows.push(row).drop_first() =~= Seq::<Seq<Seq<char>>>::empty());
        assert(decode_data(header, rows.push(row)) == decode_row(header, row) + decode_data(
            header,
            Seq::<Seq<Seq<char>>>::empty(),
        ));
        assert(decode_data(header, rows.push(row)) =~= decode_data(header, rows) + decode_row(
            header,
            row,
        ));
    } else {
        assert(rows.push(row)[0] == rows[0]);
        assert(rows.push(row).drop_first() =~= rows.drop_first().push(row));
        lemma_decode_data_push(header, rows.drop_first(), row);
        assert(decode_data(header, rows.push(row)) =~= decode_data(header, rows) + decode_row(
            header,
            row,
        ));
    }
}

/// Whether a language already stands in the list.
#[verifier::loop_isolation(false)]
fn contains_string(v: &Vec<String>, s: &String) -> (r: bool)
    ensures
        r == v.deep_view().contains(s@),
{
    let n = v.len();
    let mut i: usize = 0;
    while i < n
        invariant
            i <= n,
            forall|j: int| 0 <= j < i ==> v.deep_view()[j] != s@,
        decreases n - i,
    {
        if v[i] == *s {
            proof {
                assert(v.deep_view()[i as int] == s@);
                assert(v.deep_view().contains(s@));
            }
            return true;
        }
        i += 1;
    }
    proof {
        assert(!v.deep_view().contains(s@));
    }
    false
}

impl MessageObject {
    /// Decode a table into records. The first row must be a header of length
    /// at least 3 naming the language columns from index 2 on; otherwise the
    /// result is empty. Every later row of length at least 3 yields a record
    /// from its namespace, code and language columns; shorter rows are
    /// skipped.
    #[verifier::loop_isolation(false)]
    pub fn from_strings(values: &Vec<Vec<String>>) -> (res: Vec<MessageObject>)
        ensures
            res.deep_view() == decode_spec(values.deep_view()),
            records_texts_distinct(res.deep_view()),
            records_texts_nonempty(res.deep_view()),
    {
        let ghost rows = values.deep_view();
        let mut res: Vec<MessageObject> = Vec::new();
        if values.len() == 0 {
            proof {
                assert(res.deep_view() =~= decode_spec(rows));
            }
            return res;
        }
        let first = &values[0];
        if first.len() <= 2 {
            proof {
                assert(rows[0].len() == first@.len());
                assert(res.deep_view() =~= decode_spec(rows));
            }
            return res;
        }
        // The header languages: the first row's columns from index 2 on.
        let mut header: Vec<String> = Vec::new();
        let mut idx: usize = 2;
        while idx < first.len()
            invariant
                2 <= idx <= first@.len(),
                header.deep_view() =~= rows[0].subrange(2, idx as int),
            decreases first@.len() - idx,
        {
            let ghost hprev = header.deep_view();
            header.push(first[idx].clone());
            proof {
                assert(header.deep_view() =~= hprev.push(rows[0][idx as int]));
                assert(header.deep_view() =~= rows[0].subrange(2, idx as int + 1));
            }
            idx += 1;
        }
        let ghost hh = rows[0].skip(2);
        proof {
            assert(header.deep_view() =~= hh);
        }
        let n = values.len();
        let mut r: usize = 1;
        while r < n
            invariant
                1 <= r <= n,
                res.deep_view() == decode_data(hh, rows.subrange(1, r as int)),
                records_texts_distinct(res.deep_view()),
                records_texts_nonempty(res.deep_view()),
            decreases n - r,
        {
            let ghost processed = rows.subrange(1, r as int);
            let ghost rowv = rows[r as int];
            let row = &values[r];
            let ghost prev = res.deep_view();
            if row.len() > 2 {
                let mut mm = MessageMap::new();
                proof {
                    assert(rowv.len() == row@.len());
                    assert(mm@ =~= row_texts_upto(hh, rowv, 2));
                }
                let mut c: usize = 2;
                while c < row.len()
                    invariant
                        2 <= c <= row@.len(),
                        mm@ == row_texts_upto(hh, rowv, c as int),
                        mm.wf(),
                    decreases row@.len() - c,
                {
                    if c - 2 < header.len() {
                        proof {
                            assert(header.deep_view()[c as int - 2] == hh[c as int - 2]);
                        }
                        mm.insert(header[c - 2].clone(), row[c].clone());
                    }
                    c += 1;
                }
                if mm.len() != 0 {
                    let mo = MessageObject {
                        namespace: row[0].clone(),
                        code: row[1].clone(),
                        message: mm,
                    };
                    proof {
                        assert(mo@ == (RecordView {
                            namespace: rowv[0],
                            code: rowv[1],
                            texts: row_texts(hh, rowv),
                        }));
                        assert(decode_row(hh, rowv) =~= seq![mo@]);
                    }
                    res.push(mo);
                    proof {
                        assert(res.deep_view() =~= prev + decode_row(hh, rowv));
                    }
                } else {
                    proof {
                        assert(decode_row(hh, rowv) =~= Seq::<RecordView>::empty());
                        assert(res.deep_view() =~= prev + decode_row(hh, rowv));
                    }
                }
            } else {
                proof {
                    assert(rowv.len() == row@.len());
                    assert(decode_row(hh, rowv) =~= Seq::<RecordView>::empty());
                    assert(res.deep_view() =~= prev + decode_row(hh, rowv));
                }
            }
            proof {
                lemma_decode_data_push(hh, processed, rowv);
                assert(rows.subrange(1, r as int + 1) =~= processed.push(rowv));
            }
            r += 1;
        }
        proof {
            assert(rows.subrange(1, n as int) =~= rows.drop_first());
            assert(rows[0].len() > 2);
        }
        res
    }

    /// Encode records into a table: nothing for no records; else a header row
    /// naming every language seen across the records, in first-occurrence
    /// order, then one data row per record, each padded with empty strings to
    /// the header's length.
    #[verifier::loop_isolation(false)]
    pub fn message_objects_to_strings(message_objects: Vec<MessageObject>) -> (res: Vec<
        Vec<String>,
    >)
        ensures
            res.deep_view() == encode_spec(message_objects.deep_view()),
    {
        let ghost rs = message_objects.deep_view();
        let mut res: Vec<Vec<String>> = Vec::new();
        if message_objects.len() == 0 {
            proof {
                assert(res.deep_view() =~= encode_spec(rs));
            }
            return res;
        }
        // First pass: gather the header languages in first-occurrence order.
        let mut header: Vec<String> = Vec::new();
        proof {
            assert(header.deep_view() =~= header_upto(rs, 0));
        }
        let n = message_objects.len();
        let mut i: usize = 0;
        while i < n
            invariant
                i <= n,
                header.deep_view() == header_upto(rs, i as int),
            decreases n - i,
        {
            let mo = &message_objects[i];
            let ghost ts = rs[i as int].texts;
            let ghost h0 = header.deep_view();
            let en = mo.message.entries.len();
            proof {
                assert(en == ts.len());
                assert(add_langs_upto(h0, ts, 0) == h0);
            }
            let mut e: usize = 0;
            while e < en
                invariant
                    e <= en,
                    header.deep_view() == add_langs_upto(h0, ts, e as int),
                decreases en - e,
            {
                let lang = &mo.message.entries[e].0;
                proof {
                    assert(lang@ == ts[e as int].0);
                }
                if !contains_string(&header, lang) {
                    let ghost hprev = header.deep_view();
                    header.push(lang.clone());
                    proof {
                        assert(header.deep_view() =~= hprev.push(lang@));
                    }
                }
                e += 1;
            }
            i += 1;
        }
        let ghost hh = header_of(rs);
        proof {
            assert(header.deep_view() == hh);
        }
        // The header row: the two fixed column names, then the languages.
        let mut name_row: Vec<String> = Vec::new();
        name_row.push("namespace".to_owned());
        name_row.push("code".to_owned());
        proof {
            assert(name_row.deep_view() =~= header_row(hh).take(2));
        }
        let hn = header.len();
        let mut j: usize = 0;
        while j < hn
            invariant
                j <= hn,
                hn == hh.len(),
                header.deep_view() == hh,
                name_row.deep_view() =~= header_row(hh).take(2 + j as int),
            decreases hn - j,
        {
            name_row.push(header[j].clone());
            proof {
                assert(name_row.deep_view() =~= header_row(hh).take(2 + j as int + 1));
            }
            j += 1;
        }
        res.push(name_row);
        proof {
            assert(header_row(hh).take(2 + hn as int) =~= header_row(hh));
            assert(res.deep_view() =~= seq![header_row(hh)] + rs.take(0).map_values(
                |r: RecordView| row_of(hh, r),
            ));
        }
        // Second pass: one data row per record, in record order.
        let mut i: usize = 0;
        while i < n
            invariant
                i <= n,
                n == rs.len(),
                hn == hh.len(),
                header.deep_view() == hh,
                res.deep_view() == seq![header_row(hh)] + rs.take(i as int).map_values(
                    |r: RecordView| row_of(hh, r),
                ),
            decreases n - i,
        {
            let mo = &message_objects[i];
            let ghost rv = rs[i as int];
            let mut data_row: Vec<String> = Vec::new();
            data_row.push(mo.namespace.clone());
            data_row.push(mo.code.clone());
            proof {
                assert(data_row.deep_view() =~= row_of(hh, rv).take(2));
            }
            let mut j: usize = 0;
            while j < hn
                invariant
                    j <= hn,
                    data_row.deep_view() =~= row_of(hh, rv).take(2 + j as int),
                decreases hn - j,
            {
                match mo.message.get(&header[j]) {
                    Some(t) => {
                        let text = t.clone();
                        data_row.push(text);
                    },
                    None => {
                        data_row.push(String::new());
                    },
                }
                proof {
                    assert(data_row.deep_view() =~= row_of(hh, rv).take(2 + j as int + 1));
                }
                j += 1;
            }
            proof {
                assert(row_of(hh, rv).take(2 + hn as int) =~= row_of(hh, rv));
            }
            let ghost resprev = res.deep_view();
            res.push(data_row);
            proof {
                assert(res.deep_view() =~= resprev.push(row_of(hh, rv)));
                assert(res.deep_view() =~= seq![header_row(hh)] + rs.take(i as int + 1).map_values(
                    |r: RecordView| row_of(hh, r),
                ));
            }
            i += 1;
        }
        proof {
            assert(rs.take(n as int) == rs) by {
                assert(rs.take(n as int) =~= rs);
            }
            assert(res.deep_view() == encode_spec(rs));
        }
        res
    }
}

} // verus!

//! Lexicographic order on strings by code point, the (namespace, code) order
//! on records it induces, and the sort the export path applies before
//! encoding.

use vstd::prelude::*;
use vstd::string::StrSliceExecFns;

use crate::i18n::MessageObject;
use crate::i18n::RecordView;
use crate::i18n::rec_key;

verus! {

/// Strict lexicographic order on character sequences, by code point; a
/// proper prefix comes first.
pub open spec fn lex_lt(a: Seq<char>, b: Seq<char>) -> bool
    decreases a.len(),
{
    if b.len() == 0 {
        false
    } else if a.len() == 0 {
        true
    } else if a[0] == b[0] {
        lex_lt(a.drop_first(), b.drop_first())
    } else {
        (a[0] as int) < (b[0] as int)
    }
}

/// The export order on (namespace, code) keys: namespace first, then code.
pub open spec fn key_le(a: (Seq<char>, Seq<char>), b: (Seq<char>, Seq<char>)) -> bool {
    lex_lt(a.0, b.0) || (a.0 == b.0 && (lex_lt(a.1, b.1) || a.1 == b.1))
}

/// Records sorted by (namespace, code).
pub open spec fn sorted_records(s: Seq<RecordView>) -> bool {
    forall|i: int, j: int| 0 <= i < j < s.len() ==> key_le(rec_key(s[i]), rec_key(s[j]))
}

/// `lex_lt` is total: two sequences are ordered one way, the other, or equal.
pub proof fn lemma_lex_lt_total(a: Seq<char>, b: Seq<char>)
    ensures
        lex_lt(a, b) || lex_lt(b, a) || a == b,
    decreases a.len(),
{
    if b.len() == 0 {
        if a.len() == 0 {
            assert(a =~= b);
        }
    } else if a.len() == 0 {
    } else if a[0] == b[0] {
        lemma_lex_lt_total(a.drop_first(), b.drop_first());
        if a.drop_first() == b.drop_first() {
            assert(a.drop_first().len() == b.drop_first().len());
            assert(a.len() == b.len());
            assert forall|i: int| 0 <= i < a.len() implies a[i] == b[i] by {
                if i >= 1 {
                    assert(a[i] == a.drop_first()[i - 1]);
                    assert(b[i] == b.drop_first()[i - 1]);
                }
            }
            assert(a =~= b);
        }
    } else {
        assert(a[0] as int != b[0] as int);
    }
}

/// `lex_lt` is transitive.
pub proof fn lemma_lex_lt_trans(a: Seq<char>, b: Seq<char>, c: Seq<char>)
    requires
        lex_lt(a, b),
        lex_lt(b, c),
    ensures
        lex_lt(a, c),
    decreases a.len(),
{
    if a.len() == 0 {
    } else {
        if a[0] == b[0] {
            if b[0] == c[0] {
                lemma_lex_lt_trans(a.drop_first(), b.drop_first(), c.drop_first());
            }
        } else {
            if b[0] == c[0] {
            } else {
                assert((a[0] as int) < (c[0] as int));
            }
        }
    }
}

/// The key order is total.
pub proof fn lemma_key_le_total(a: (Seq<char>, Seq<char>), b: (Seq<char>, Seq<char>))
    ensures
        key_le(a, b) || key_le(b, a),
{
    lemma_lex_lt_total(a.0, b.0);
    lemma_lex_lt_total(a.1, b.1);
}

/// The key order is transitive.
pub proof fn lemma_key_le_trans(
    a: (Seq<char>, Seq<char>),
    b: (Seq<char>, Seq<char>),
    c: (Seq<char>, Seq<char>),
)
    requires
        key_le(a, b),
        key_le(b, c),
    ensures
        key_le(a, c),
{
    if lex_lt(a.0, b.0) {
        if lex_lt(b.0, c.0) {
            lemma_lex_lt_trans(a.0, b.0, c.0);
        }
    } else {
        if !lex_lt(b.0, c.0) {
            if lex_lt(a.1, b.1) && lex_lt(b.1, c.1) {
                lemma_lex_lt_trans(a.1, b.1, c.1);
            }
        }
    }
}

/// When two sequences agree below `i`, the order is decided from `i` on.
proof fn lemma_lex_lt_skip(a: Seq<char>, b: Seq<char>, i: int)
    requires
        0 <= i <= a.len(),
        i <= b.len(),
        forall|j: int| 0 <= j < i ==> a[j] == b[j],
    ensures
        lex_lt(a, b) == lex_lt(a.skip(i), b.skip(i)),
    decreases i,
{
    if i == 0 {
        assert(a.skip(0) =~= a);
        assert(b.skip(0) =~= b);
    } else {
        assert(a.len() > 0 && b.len() > 0 && a[0] == b[0]);
        assert(a.drop_first().skip(i - 1) =~= a.skip(i));
        assert(b.drop_first().skip(i - 1) =~= b.skip(i));
        assert(forall|j: int| 0 <= j < i - 1 ==> a.drop_first()[j] == b.drop_first()[j]);
        lemma_lex_lt_skip(a.drop_first(), b.drop_first(), i - 1);
    }
}

/// Whether `a` comes strictly before `b` in code-point order.
#[verifier::loop_isolation(false)]
pub fn str_lt(a: &String, b: &String) -> (r: bool)
    ensures
        r == lex_lt(a@, b@),
{
    let an = a.as_str().unicode_len();
    let bn = b.as_str().unicode_len();
    let mut i: usize = 0;
    while i < an && i < bn
        invariant
            i <= an,
            i <= bn,
            forall|j: int| 0 <= j < i ==> a@[j] == b@[j],
        decreases an - i,
    {
        let ca = a.as_str().get_char(i);
        let cb = b.as_str().get_char(i);
        if (ca as u32) < (cb as u32) {
            proof {
                lemma_lex_lt_skip(a@, b@, i as int);
                assert(a@.skip(i as int)[0] == ca);
                assert(b@.skip(i as int)[0] == cb);
                assert((ca as int) < (cb as int));
                assert(ca != cb);
            }
            return true;
        }
        if (ca as u32) > (cb as u32) {
            proof {
                lemma_lex_lt_skip(a@, b@, i as int);
                assert(a@.skip(i as int)[0] == ca);
                assert(b@.skip(i as int)[0] == cb);
                assert((ca as int) > (cb as int));
                assert(ca != cb);
            }
            return false;
        }
        proof {
            if ca != cb {
                assert(ca as int != cb as int);
                assert((ca as u32) != (cb as u32));
            }
        }
        i += 1;
    }
    proof {
        lemma_lex_lt_skip(a@, b@, i as int);
        assert(a@.skip(i as int).len() == a@.len() - i);
        assert(b@.skip(i as int).len() == b@.len() - i);
    }
    an < bn
}

/// Whether record `a` comes no later than record `b` under the export order.
pub fn record_le(a: &MessageObject, b: &MessageObject) -> (r: bool)
    ensures
        r == key_le(rec_key(a@), rec_key(b@)),
{
    if str_lt(&a.namespace, &b.namespace) {
        true
    } else if a.namespace == b.namespace {
        if str_lt(&a.code, &b.code) {
            true
        } else {
            a.code == b.code
        }
    } else {
        false
    }
}

/// The first position whose record does not come before `x`; the insertion
/// point that keeps a sorted sequence sorted.
#[verifier::loop_isolation(false)]
fn insertion_point(sorted: &Vec<MessageObject>, x: &MessageObject) -> (p: usize)
    ensures
        p <= sorted@.len(),
        forall|k: int| 0 <= k < p ==> key_le(rec_key(sorted.deep_view()[k]), rec_key(x@)),
        p < sorted@.len() ==> !key_le(rec_key(sorted.deep_view()[p as int]), rec_key(x@)),
{
    let n = sorted.len();
    let mut p: usize = 0;
    while p < n
        invariant
            p <= n,
            forall|k: int| 0 <= k < p ==> key_le(rec_key(sorted.deep_view()[k]), rec_key(x@)),
        decreases n - p,
    {
        if !record_le(&sorted[p], x) {
            return p;
        }
        p += 1;
    }
    p
}

/// Sort records by (namespace, code), namespace first: the order the export
/// path writes rows in.
#[verifier::loop_isolation(false)]
pub fn sort_message_objects(message_objects: Vec<MessageObject>) -> (r: Vec<MessageObject>)
    ensures
        r.deep_view().to_multiset() == message_objects.deep_view().to_multiset(),
        sorted_records(r.deep_view()),
{
    broadcast use vstd::seq_lib::group_to_multiset_ensures;

    let ghost rs = message_objects.deep_view();
    let n = message_objects.len();
    let mut res: Vec<MessageObject> = Vec::new();
    proof {
        assert(res.deep_view() =~= rs.take(0));
    }
    let mut i: usize = 0;
    while i < n
        invariant
            i <= n,
            res@.len() == i,
            res.deep_view().to_multiset() == rs.take(i as int).to_multiset(),
            sorted_records(res.deep_view()),
        decreases n - i,
    {
        let x = message_objects[i].clone();
        proof {
            assert(x@ == rs[i as int]);
        }
        let p = insertion_point(&res, &x);
        let ghost before = res.deep_view();
        res.insert(p, x);
        proof {
            assert(res.deep_view() =~= before.insert(p as int, rs[i as int]));
            vstd::seq_lib::to_multiset_insert(before, p as int, rs[i as int]);
            assert(rs.take(i as int + 1) =~= rs.take(i as int).push(rs[i as int]));
            assert(sorted_records(res.deep_view())) by {
                let now = res.deep_view();
                assert(forall|k: int| 0 <= k < p ==> now[k] == before[k]);
                assert(forall|k: int| p < k < now.len() ==> now[k] == before[k - 1]);
                assert(now[p as int] == rs[i as int]);
                assert forall|k: int, m: int| 0 <= k < m < now.len() implies key_le(
                    rec_key(now[k]),
                    rec_key(now[m]),
                ) by {
                    if k == p && m > p {
                        lemma_key_le_total(rec_key(before[p as int]), rec_key(rs[i as int]));
                        if m - 1 > p {
                            lemma_key_le_trans(
                                rec_key(rs[i as int]),
                                rec_key(before[p as int]),
                                rec_key(before[m - 1]),
                            );
                        }
                    }
                }
            }
        }
        i += 1;
    }
    proof {
        assert(rs.take(n as int) =~= rs);
    }
    res
}

} // verus!

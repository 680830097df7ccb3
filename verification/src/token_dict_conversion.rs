//! From a token dictionary to the build-time trie.
//!
//! The prefix closure extends the dictionary so that every non-empty prefix
//! of every key maps to the id of the shortest key it is a prefix of.  The
//! closed dictionary is then traced into a `PointerByteNode` trie, shortest
//! keys first, so every insertion extends an existing path by at most one
//! node.

use crate::bittree::{insert_effect, is_prefix_of, ByteTree, PointerByteNode};
use vstd::prelude::*;

verus! {

/// A token dictionary held as a list of key/id entries.
#[derive(Debug)]
pub struct TokenDict {
    pub entries: Vec<(Vec<u8>, u64)>,
}

/// The mapping an entry list stands for; later entries would win, but a
/// well-formed dictionary has distinct keys.
pub open spec fn dict_map(s: Seq<(Vec<u8>, u64)>) -> Map<Seq<u8>, u64>
    decreases s.len(),
{
    if s.len() == 0 {
        Map::empty()
    } else {
        dict_map(s.drop_last()).insert(s.last().0@, s.last().1)
    }
}

/// Distinct, non-empty keys.
pub open spec fn dict_wf(s: Seq<(Vec<u8>, u64)>) -> bool {
    &&& forall|i: int, j: int| 0 <= i < j < s.len() ==> s[i].0@ != s[j].0@
    &&& forall|i: int| 0 <= i < s.len() ==> s[i].0@.len() > 0
}

/// The length of the longest key.
pub open spec fn max_key_len(s: Seq<(Vec<u8>, u64)>) -> int
    decreases s.len(),
{
    if s.len() == 0 {
        0
    } else if s.last().0@.len() > max_key_len(s.drop_last()) {
        s.last().0@.len() as int
    } else {
        max_key_len(s.drop_last())
    }
}

/// Entries come shortest key first.
pub open spec fn sorted_by_len(s: Seq<(Vec<u8>, u64)>) -> bool {
    forall|i: int, j: int| 0 <= i < j < s.len() ==> s[i].0@.len() <= s[j].0@.len()
}

/// Every non-empty strict prefix of an entry's key is itself an entry's key.
pub open spec fn prefix_closed_list(s: Seq<(Vec<u8>, u64)>) -> bool {
    forall|i: int, l: int|
        #![trigger s[i].0@.take(l)]
        0 <= i < s.len() && 1 <= l < s[i].0@.len() ==> exists|j: int|
            0 <= j < s.len() && s[j].0@ == s[i].0@.take(l)
}

/// `k` is a shortest key of `d` that `p` is a prefix of.
pub open spec fn covers_shortest(d: Map<Seq<u8>, u64>, p: Seq<u8>, k: Seq<u8>) -> bool {
    &&& d.dom().contains(k)
    &&& is_prefix_of(p, k)
    &&& forall|k2: Seq<u8>|
        d.dom().contains(k2) && is_prefix_of(p, k2) ==> k.len() <= k2.len()
}

/// `m` is the prefix closure of `d`: its keys are exactly the non-empty
/// prefixes of `d`'s keys, and each maps to the id of the shortest key of `d`
/// that it is a prefix of.
pub open spec fn closure_ok(d: Map<Seq<u8>, u64>, m: Map<Seq<u8>, u64>) -> bool {
    &&& forall|p: Seq<u8>| #[trigger]
        m.dom().contains(p) <==> (p.len() > 0 && exists|k: Seq<u8>|
            d.dom().contains(k) && is_prefix_of(p, k))
    &&& forall|p: Seq<u8>| #[trigger]
        m.dom().contains(p) ==> exists|k: Seq<u8>| covers_shortest(d, p, k) && m[p] == d[k]
}

/// The build-time trie spells out exactly the closed dictionary `m`: a path
/// is defined exactly when it is a key of `m`, it ends at `m`'s id for it,
/// and the root carries the sentinel.
pub open spec fn trie_matches(root: PointerByteNode, m: Map<Seq<u8>, u64>) -> bool {
    &&& root.spec_value() == u64::MAX
    &&& forall|q: Seq<u8>|
        q.len() > 0 ==> (#[trigger] root.subnode_at(q) is Some <==> m.dom().contains(q))
    &&& forall|q: Seq<u8>|
        q.len() > 0 && m.dom().contains(q) ==> #[trigger] root.subnode_at(
            q,
        )->Some_0.spec_value() == m[q]
}

/// What an entry list's map holds: membership mirrors the entries, and an
/// entry that no later entry shadows supplies the value.
pub proof fn lemma_dict_map_props(s: Seq<(Vec<u8>, u64)>)
    ensures
        forall|k: Seq<u8>| #[trigger]
            dict_map(s).dom().contains(k) <==> exists|i: int| 0 <= i < s.len() && s[i].0@ == k,
        forall|i: int|
            #![trigger s[i]]
            0 <= i < s.len() && (forall|j: int| i < j < s.len() ==> s[j].0@ != s[i].0@)
                ==> dict_map(s).dom().contains(s[i].0@) && dict_map(s)[s[i].0@] == s[i].1,
    decreases s.len(),
{
    if s.len() > 0 {
        let d = s.drop_last();
        lemma_dict_map_props(d);
        assert forall|k: Seq<u8>| #[trigger]
            dict_map(s).dom().contains(k) <==> exists|i: int|
                0 <= i < s.len() && s[i].0@ == k by {
            if dict_map(s).dom().contains(k) {
                if k == s.last().0@ {
                    assert(s[s.len() - 1].0@ == k);
                } else {
                    assert(dict_map(d).dom().contains(k));
                    let i = choose|i: int| 0 <= i < d.len() && d[i].0@ == k;
                    assert(d[i] == s[i]);
                    assert(s[i].0@ == k);
                }
            }
            if exists|i: int| 0 <= i < s.len() && s[i].0@ == k {
                let i = choose|i: int| 0 <= i < s.len() && s[i].0@ == k;
                if i < s.len() - 1 {
                    assert(d[i].0@ == k);
                    assert(dict_map(d).dom().contains(k));
                }
            }
        }
        assert forall|i: int|
            #![trigger s[i]]
            0 <= i < s.len() && (forall|j: int| i < j < s.len() ==> s[j].0@ != s[i].0@) implies
            dict_map(s).dom().contains(s[i].0@) && dict_map(s)[s[i].0@] == s[i].1 by {
            if i == s.len() - 1 {
                assert(dict_map(s)[s.last().0@] == s.last().1);
            } else {
                assert(d[i] == s[i]);
                assert(forall|j: int| i < j < d.len() ==> d[j].0@ != d[i].0@);
                assert(dict_map(d).dom().contains(d[i].0@) && dict_map(d)[d[i].0@] == d[i].1);
                assert(s[i].0@ != s.last().0@);
            }
        }
    }
}

/// Byte-for-byte equality of two byte vectors.
pub fn bytes_eq(a: &Vec<u8>, b: &Vec<u8>) -> (r: bool)
    ensures
        r <==> a@ == b@,
{
    if a.len() != b.len() {
        return false;
    }
    let mut i: usize = 0;
    while i < a.len()
        invariant
            i <= a@.len(),
            a@.len() == b@.len(),
            forall|j: int| 0 <= j < i ==> a@[j] == b@[j],
        decreases a@.len() - i,
    {
        if a[i] != b[i] {
            return false;
        }
        i = i + 1;
    }
    proof {
        assert(a@ =~= b@);
    }
    true
}

/// Whether `p` is a prefix of `k`.
pub fn is_prefix(p: &Vec<u8>, k: &Vec<u8>) -> (r: bool)
    ensures
        r <==> is_prefix_of(p@, k@),
{
    if p.len() > k.len() {
        return false;
    }
    let mut i: usize = 0;
    while i < p.len()
        invariant
            i <= p@.len() <= k@.len(),
            forall|j: int| 0 <= j < i ==> p@[j] == k@[j],
        decreases p@.len() - i,
    {
        if p[i] != k[i] {
            proof {
                assert(k@.take(p@.len() as int)[i as int] == k@[i as int]);
            }
            return false;
        }
        i = i + 1;
    }
    proof {
        assert(k@.take(p@.len() as int) =~= p@);
    }
    true
}

/// The first `l` bytes of `k` as an owned vector.
pub fn prefix_vec(k: &Vec<u8>, l: usize) -> (r: Vec<u8>)
    requires
        l <= k@.len(),
    ensures
        r@ == k@.take(l as int),
{
    let mut r: Vec<u8> = Vec::new();
    let mut i: usize = 0;
    while i < l
        invariant
            i <= l <= k@.len(),
            r@.len() == i,
            forall|j: int| 0 <= j < i ==> r@[j] == k@[j],
        decreases l - i,
    {
        r.push(k[i]);
        i = i + 1;
    }
    proof {
        assert(r@ =~= k@.take(l as int));
    }
    r
}

/// Looks a key up in an entry list: the id of some entry with that key.
pub fn dict_get(entries: &Vec<(Vec<u8>, u64)>, key: &Vec<u8>) -> (r: Option<u64>)
    ensures
        r is Some <==> exists|i: int| 0 <= i < entries@.len() && entries@[i].0@ == key@,
        r is Some ==> exists|i: int|
            0 <= i < entries@.len() && entries@[i].0@ == key@ && entries@[i].1 == r->Some_0,
{
    let mut i: usize = 0;
    while i < entries.len()
        invariant
            i <= entries@.len(),
            forall|j: int| 0 <= j < i ==> entries@[j].0@ != key@,
        decreases entries@.len() - i,
    {
        if bytes_eq(&entries[i].0, key) {
            return Some(entries[i].1);
        }
        i = i + 1;
    }
    None
}

/// The id of a shortest dictionary key that `p` is a prefix of.
fn shortest_cover(entries: &Vec<(Vec<u8>, u64)>, p: &Vec<u8>) -> (r: u64)
    requires
        dict_wf(entries@),
        exists|i: int| 0 <= i < entries@.len() && is_prefix_of(p@, entries@[i].0@),
    ensures
        exists|k: Seq<u8>|
            covers_shortest(dict_map(entries@), p@, k) && r == dict_map(entries@)[k],
{
    let mut best: Option<(usize, u64)> = None;
    let ghost mut best_i: int = 0;
    let mut i: usize = 0;
    while i < entries.len()
        invariant
            i <= entries@.len(),
            dict_wf(entries@),
            best is None ==> forall|j: int| 0 <= j < i ==> !is_prefix_of(p@, entries@[j].0@),
            best is Some ==> {
                &&& 0 <= best_i < i
                &&& entries@[best_i].0@.len() == best->Some_0.0
                &&& entries@[best_i].1 == best->Some_0.1
                &&& is_prefix_of(p@, entries@[best_i].0@)
                &&& forall|j: int|
                    0 <= j < i && is_prefix_of(p@, entries@[j].0@) ==> best->Some_0.0
                        <= entries@[j].0@.len()
            },
        decreases entries@.len() - i,
    {
        if is_prefix(p, &entries[i].0) {
            let len_i = entries[i].0.len();
            match best {
                None => {
                    best = Some((len_i, entries[i].1));
                    proof {
                        best_i = i as int;
                    }
                },
                Some(b) => {
                    if len_i < b.0 {
                        best = Some((len_i, entries[i].1));
                        proof {
                            best_i = i as int;
                        }
                    }
                },
            }
        }
        i = i + 1;
    }
    proof {
        lemma_dict_map_props(entries@);
    }
    match best {
        Some(b) => {
            proof {
                let k = entries@[best_i].0@;
                assert(forall|j: int| best_i < j < entries@.len() ==> entries@[j].0@ != k);
                assert(dict_map(entries@).dom().contains(k) && dict_map(entries@)[k]
                    == entries@[best_i].1);
                assert forall|k2: Seq<u8>|
                    dict_map(entries@).dom().contains(k2) && is_prefix_of(p@, k2) implies k.len()
                    <= k2.len() by {
                    let j = choose|j: int| 0 <= j < entries@.len() && entries@[j].0@ == k2;
                }
                assert(covers_shortest(dict_map(entries@), p@, k));
            }
            b.1
        },
        None => {
            proof {
                assert(false);
            }
            vstd::pervasive::unreached()
        },
    }
}

/// Some entry of `rs` has exactly the key `p`.
pub open spec fn in_result(rs: Seq<(Vec<u8>, u64)>, p: Seq<u8>) -> bool {
    exists|j: int| 0 <= j < rs.len() && rs[j].0@ == p
}

/// `p` is a prefix of some key of `d`.
pub open spec fn covered_prefix(d: Map<Seq<u8>, u64>, p: Seq<u8>) -> bool {
    exists|k: Seq<u8>| d.dom().contains(k) && is_prefix_of(p, k)
}

/// Every entry of `rs` maps its key to the id of a shortest covering key of
/// `d`.
pub open spec fn values_covered(d: Map<Seq<u8>, u64>, rs: Seq<(Vec<u8>, u64)>) -> bool {
    forall|j: int|
        #![trigger rs[j]]
        0 <= j < rs.len() ==> exists|k: Seq<u8>| covers_shortest(d, rs[j].0@, k) && rs[j].1 == d[k]
}

/// No key is longer than the longest key.
pub proof fn lemma_max_key_len(s: Seq<(Vec<u8>, u64)>, i: int)
    requires
        0 <= i < s.len(),
    ensures
        s[i].0@.len() <= max_key_len(s),
    decreases s.len(),
{
    if i < s.len() - 1 {
        lemma_max_key_len(s.drop_last(), i);
    }
}

/// Membership after a push: the new key, or an old one.
proof fn lemma_in_result_push(rs: Seq<(Vec<u8>, u64)>, entry: (Vec<u8>, u64))
    ensures
        forall|q: Seq<u8>| #[trigger]
            in_result(rs.push(entry), q) <==> (in_result(rs, q) || q == entry.0@),
{
    assert forall|q: Seq<u8>| #[trigger]
        in_result(rs.push(entry), q) <==> (in_result(rs, q) || q == entry.0@) by {
        if in_result(rs.push(entry), q) {
            let j = choose|j: int| 0 <= j < rs.push(entry).len() && rs.push(entry)[j].0@ == q;
            if j < rs.len() {
                assert(rs[j].0@ == q);
            }
        }
        if in_result(rs, q) {
            let j = choose|j: int| 0 <= j < rs.len() && rs[j].0@ == q;
            assert(rs.push(entry)[j].0@ == q);
        }
        if q == entry.0@ {
            assert(rs.push(entry)[rs.len() as int].0@ == q);
        }
    }
}

impl TokenDict {
    /// Extends the dictionary so that every non-empty prefix of every key
    /// maps to the id of the shortest key it is a prefix of; shorter keys
    /// come first in the result.
    pub fn include_token_prefixes(&self) -> (r: TokenDict)
        requires
            dict_wf(self.entries@),
            self.entries@.len() > 0,
            max_key_len(self.entries@) < usize::MAX,
        ensures
            dict_wf(r.entries@),
            sorted_by_len(r.entries@),
            prefix_closed_list(r.entries@),
            closure_ok(dict_map(self.entries@), dict_map(r.entries@)),
            r.entries@.len() <= self.entries@.len() * max_key_len(self.entries@),
    {
        let entries = &self.entries;
        let ghost d = dict_map(entries@);
        let n = entries.len();
        let mut max_len: usize = 0;
        let mut i: usize = 0;
        while i < n
            invariant
                i <= entries@.len(),
                n == entries@.len(),
                forall|j: int| 0 <= j < i ==> entries@[j].0@.len() <= max_len,
                max_len <= max_key_len(entries@),
            decreases entries@.len() - i,
        {
            proof {
                lemma_max_key_len(entries@, i as int);
            }
            if entries[i].0.len() > max_len {
                max_len = entries[i].0.len();
            }
            i = i + 1;
        }
        let mut result: Vec<(Vec<u8>, u64)> = Vec::new();
        let mut l: usize = 1;
        while l <= max_len
            invariant
                1 <= l,
                l <= max_len + 1,
                n == entries@.len(),
                n > 0,
                max_len <= max_key_len(entries@),
                max_key_len(entries@) < usize::MAX,
                dict_wf(entries@),
                d == dict_map(entries@),
                forall|j: int| 0 <= j < entries@.len() ==> entries@[j].0@.len() <= max_len,
                forall|j: int|
                    #![trigger result@[j].0@]
                    0 <= j < result@.len() ==> 1 <= result@[j].0@.len() < l,
                sorted_by_len(result@),
                forall|i2: int, j2: int|
                    0 <= i2 < j2 < result@.len() ==> result@[i2].0@ != result@[j2].0@,
                forall|p: Seq<u8>| #[trigger]
                    in_result(result@, p) <==> (1 <= p.len() < l && covered_prefix(d, p)),
                values_covered(d, result@),
                result@.len() <= (l - 1) * entries@.len(),
            decreases max_len + 1 - l,
        {
            let mut e: usize = 0;
            while e < n
                invariant
                    e <= n,
                    1 <= l <= max_len,
                    n == entries@.len(),
                    dict_wf(entries@),
                    d == dict_map(entries@),
                    forall|j: int|
                        #![trigger result@[j].0@]
                        0 <= j < result@.len() ==> 1 <= result@[j].0@.len() <= l,
                    sorted_by_len(result@),
                    forall|i2: int, j2: int|
                        0 <= i2 < j2 < result@.len() ==> result@[i2].0@ != result@[j2].0@,
                    forall|p: Seq<u8>| #[trigger]
                        in_result(result@, p) <==> ((1 <= p.len() < l && covered_prefix(d, p)) || (
                        p.len() == l && exists|j: int|
                            0 <= j < e && entries@[j].0@.len() >= l && entries@[j].0@.take(
                                l as int,
                            ) == p)),
                    values_covered(d, result@),
                    result@.len() <= (l - 1) * entries@.len() + e,
                decreases n - e,
            {
                let ghost rs_before = result@;
                if entries[e].0.len() >= l {
                    let p = prefix_vec(&entries[e].0, l);
                    if dict_get(&result, &p).is_none() {
                        proof {
                            assert(!in_result(result@, p@));
                        }
                        let id = shortest_cover(entries, &p);
                        result.push((p, id));
                        proof {
                            lemma_in_result_push(rs_before, result@.last());
                            assert forall|j: int|
                                #![trigger result@[j]]
                                0 <= j < result@.len() implies exists|k: Seq<u8>|
                                covers_shortest(d, result@[j].0@, k) && result@[j].1
                                    == d[k] by {
                                if j < rs_before.len() {
                                    assert(rs_before[j] == result@[j]);
                                    assert(exists|k: Seq<u8>|
                                        covers_shortest(d, rs_before[j].0@, k) && rs_before[j].1
                                            == d[k]);
                                }
                            }
                            assert(values_covered(d, result@));
                        }
                    } else {
                        proof {
                            assert(in_result(result@, p@));
                        }
                    }
                }
                proof {
                    assert forall|p: Seq<u8>| #[trigger]
                        in_result(result@, p) <==> ((1 <= p.len() < l && covered_prefix(d, p))
                            || (p.len() == l && exists|j: int|
                            0 <= j < e + 1 && entries@[j].0@.len() >= l && entries@[j].0@.take(
                                l as int,
                            ) == p)) by {
                        if entries@[e as int].0@.len() >= l {
                            let pe = entries@[e as int].0@.take(l as int);
                            assert(is_prefix_of(pe, entries@[e as int].0@)) by {
                                assert(entries@[e as int].0@.take(pe.len() as int) == pe);
                            }
                            assert(d.dom().contains(entries@[e as int].0@)) by {
                                lemma_dict_map_props(entries@);
                            }
                            assert(covered_prefix(d, pe));
                            if p == pe {
                                assert(in_result(result@, p));
                            }
                        }
                        if p.len() == l && (exists|j: int|
                            0 <= j < e && entries@[j].0@.len() >= l && entries@[j].0@.take(
                                l as int,
                            ) == p) {
                            assert(in_result(rs_before, p) || (1 <= p.len() < l
                                && covered_prefix(d, p)) || in_result(result@, p));
                            assert(in_result(rs_before, p) ==> in_result(result@, p)) by {
                                if in_result(rs_before, p) {
                                    let j = choose|j: int|
                                        0 <= j < rs_before.len() && rs_before[j].0@ == p;
                                    assert(result@[j].0@ == p);
                                }
                            }
                        }
                    }
                }
                e = e + 1;
            }
            proof {
                assert(result@.len() <= l * entries@.len()) by (nonlinear_arith)
                    requires
                        result@.len() <= (l - 1) * entries@.len() + entries@.len(),
                ;
            }
            l = l + 1;
            proof {
                lemma_dict_map_props(entries@);
                assert forall|p: Seq<u8>| #[trigger]
                    in_result(result@, p) <==> (1 <= p.len() < l && covered_prefix(d, p)) by {
                    if in_result(result@, p) && p.len() == l - 1 {
                        let j = choose|j: int|
                            0 <= j < n && entries@[j].0@.len() >= l - 1 && entries@[j].0@.take(
                                l as int - 1,
                            ) == p;
                        assert(is_prefix_of(p, entries@[j].0@)) by {
                            assert(entries@[j].0@.take(p.len() as int) == p);
                        }
                        assert(covered_prefix(d, p));
                    }
                    if 1 <= p.len() < l && covered_prefix(d, p) && p.len() == l - 1 {
                        let k = choose|k: Seq<u8>| d.dom().contains(k) && is_prefix_of(p, k);
                        let j = choose|j: int| 0 <= j < entries@.len() && entries@[j].0@ == k;
                        assert(entries@[j].0@.len() >= l - 1);
                        assert(entries@[j].0@.take(l as int - 1) == p);
                    }
                }
            }
        }
        proof {
            lemma_dict_map_props(entries@);
            lemma_dict_map_props(result@);
            let m = dict_map(result@);
            assert forall|p: Seq<u8>| #[trigger]
                m.dom().contains(p) <==> (p.len() > 0 && covered_prefix(d, p)) by {
                assert(m.dom().contains(p) <==> in_result(result@, p));
                if p.len() > 0 && covered_prefix(d, p) {
                    let k = choose|k: Seq<u8>| d.dom().contains(k) && is_prefix_of(p, k);
                    let j = choose|j: int| 0 <= j < entries@.len() && entries@[j].0@ == k;
                    assert(k.len() <= max_len) by {
                        lemma_max_key_len(entries@, j);
                    }
                    assert(p.len() < l);
                }
            }
            assert forall|p: Seq<u8>| #[trigger]
                m.dom().contains(p) implies exists|k: Seq<u8>|
                covers_shortest(d, p, k) && m[p] == d[k] by {
                let j = choose|j: int| 0 <= j < result@.len() && result@[j].0@ == p;
                assert(forall|j2: int| j < j2 < result@.len() ==> result@[j2].0@ != result@[j].0@);
                assert(m[result@[j].0@] == result@[j].1);
                assert(exists|k: Seq<u8>|
                    covers_shortest(d, result@[j].0@, k) && result@[j].1 == d[k]);
                let k = choose|k: Seq<u8>|
                    covers_shortest(d, result@[j].0@, k) && result@[j].1 == d[k];
                assert(covers_shortest(d, p, k) && m[p] == d[k]);
            }
            assert forall|i2: int, l2: int|
                #![trigger result@[i2].0@.take(l2)]
                0 <= i2 < result@.len() && 1 <= l2 < result@[i2].0@.len() implies exists|j: int|
                0 <= j < result@.len() && result@[j].0@ == result@[i2].0@.take(l2) by {
                assert(exists|k: Seq<u8>|
                    covers_shortest(d, result@[i2].0@, k) && result@[i2].1 == d[k]);
                let k = choose|k: Seq<u8>|
                    covers_shortest(d, result@[i2].0@, k) && result@[i2].1 == d[k];
                let p2 = result@[i2].0@.take(l2);
                assert(is_prefix_of(p2, k)) by {
                    assert(k.take(result@[i2].0@.len() as int) == result@[i2].0@);
                    assert(k.take(l2) =~= k.take(result@[i2].0@.len() as int).take(l2));
                    assert(k.take(p2.len() as int) == p2);
                }
                assert(covered_prefix(d, p2));
                assert(in_result(result@, p2));
                let j = choose|j: int| 0 <= j < result@.len() && result@[j].0@ == p2;
            }
            assert(result@.len() <= entries@.len() * max_key_len(entries@)) by (nonlinear_arith)
                requires
                    result@.len() <= (l - 1) * entries@.len(),
                    l - 1 <= max_key_len(entries@),
                    entries@.len() >= 0,
            ;
        }
        TokenDict { entries: result }
    }
}

/// Traces a closed dictionary into the build-time trie.  The entries come
/// shortest first and their keys are prefix closed, so each insertion grows
/// the trie by at most one node; the root keeps the sentinel value.
pub fn trace_hashset_into_pointer_nodes(closed_dict: &TokenDict) -> (r: PointerByteNode)
    requires
        dict_wf(closed_dict.entries@),
        sorted_by_len(closed_dict.entries@),
        prefix_closed_list(closed_dict.entries@),
        closed_dict.entries@.len() < usize::MAX,
    ensures
        trie_matches(r, dict_map(closed_dict.entries@)),
        r.spec_tree_size() <= closed_dict.entries@.len() + 1,
{
    let entries = &closed_dict.entries;
    let mut root = PointerByteNode::new(u64::MAX);
    let mut count: usize = 1;
    let mut idx: usize = 0;
    while idx < entries.len()
        invariant
            idx <= entries@.len(),
            entries@.len() < usize::MAX,
            dict_wf(entries@),
            sorted_by_len(entries@),
            prefix_closed_list(entries@),
            count == root.spec_tree_size(),
            count <= idx + 1,
            root.spec_value() == u64::MAX,
            forall|q: Seq<u8>|
                #![trigger root.subnode_at(q)]
                q.len() > 0 ==> (root.subnode_at(q) is Some <==> exists|j: int|
                    0 <= j < idx && entries@[j].0@ == q),
            forall|j: int|
                #![trigger entries@[j]]
                0 <= j < idx ==> root.subnode_at(entries@[j].0@) is Some && root.subnode_at(
                    entries@[j].0@,
                )->Some_0.spec_value() == entries@[j].1,
        decreases entries@.len() - idx,
    {
        let e = &entries[idx];
        let ghost before = root;
        let ghost key = e.0@;
        proof {
            assert(key.len() > 0);
            if key.len() > 1 {
                assert(exists|j: int|
                    0 <= j < entries@.len() && entries@[j].0@ == entries@[idx as int].0@.take(
                        key.len() - 1,
                    ));
                let j = choose|j: int|
                    0 <= j < entries@.len() && entries@[j].0@ == key.take(key.len() - 1);
                assert(j < idx) by {
                    if j > idx {
                        assert(entries@[idx as int].0@.len() <= entries@[j].0@.len());
                    }
                }
                assert(root.subnode_at(key.take(key.len() - 1)) is Some);
            }
        }
        let created = root.insert_path(&e.0, 0, e.1);
        proof {
            let rem = key.skip(0);
            assert(rem =~= key);
            if key.len() > 1 {
                assert(before.subnode_at(rem.take(key.len() - 1)) is Some);
            } else {
                assert(rem.take(rem.len() - 1) =~= Seq::<u8>::empty());
                assert(before.subnode_at(rem.take(rem.len() - 1)) == Some(before));
            }
            assert(created <= 1);
            assert(insert_effect(before, root, key, e.1));
            assert(root.subnode_at(Seq::<u8>::empty()) == Some(root));
            assert(before.subnode_at(Seq::<u8>::empty()) == Some(before));
            assert(Seq::<u8>::empty() != key);
            assert(root.spec_value() == u64::MAX);
            assert forall|q: Seq<u8>|
                #![trigger root.subnode_at(q)]
                q.len() > 0 implies (root.subnode_at(q) is Some <==> exists|j: int|
                    0 <= j < idx + 1 && entries@[j].0@ == q) by {
                if root.subnode_at(q) is Some {
                    if before.subnode_at(q) is Some {
                        let j = choose|j: int| 0 <= j < idx && entries@[j].0@ == q;
                        assert(0 <= j < idx + 1 && entries@[j].0@ == q);
                    } else {
                        assert(is_prefix_of(q, key));
                        if q.len() == key.len() {
                            assert(q =~= key);
                            assert(entries@[idx as int].0@ == q);
                        } else {
                            assert(entries@[idx as int].0@.take(q.len() as int) == q);
                            let j = choose|j: int|
                                0 <= j < entries@.len() && #[trigger] entries@[j].0@ == entries@[
                                idx as int].0@.take(q.len() as int);
                            assert(j < idx) by {
                                if j > idx {
                                    assert(entries@[idx as int].0@.len() <= entries@[j].0@.len());
                                }
                            }
                            assert(before.subnode_at(q) is Some);
                        }
                    }
                }
                if exists|j: int| 0 <= j < idx + 1 && entries@[j].0@ == q {
                    let j = choose|j: int| 0 <= j < idx + 1 && entries@[j].0@ == q;
                    if j < idx {
                        assert(before.subnode_at(q) is Some);
                    } else {
                        assert(q == key);
                        assert(root.subnode_at(key) is Some);
                    }
                }
            }
            assert forall|j: int|
                #![trigger entries@[j]]
                0 <= j < idx + 1 implies root.subnode_at(entries@[j].0@) is Some
                && root.subnode_at(entries@[j].0@)->Some_0.spec_value() == entries@[j].1 by {
                if j < idx {
                    assert(entries@[j].0@ != key);
                    assert(before.subnode_at(entries@[j].0@) is Some);
                } else {
                    assert(root.subnode_at(key)->Some_0.spec_value() == e.1);
                }
            }
        }
        count = count + created;
        idx = idx + 1;
    }
    proof {
        lemma_dict_map_props(entries@);
        let m = dict_map(entries@);
        assert forall|q: Seq<u8>|
            q.len() > 0 && m.dom().contains(q) implies #[trigger] root.subnode_at(
            q,
        )->Some_0.spec_value() == m[q] by {
            let j = choose|j: int| 0 <= j < entries@.len() && entries@[j].0@ == q;
            assert(forall|j2: int| j < j2 < entries@.len() ==> entries@[j2].0@ != entries@[j].0@);
            assert(m[entries@[j].0@] == entries@[j].1);
        }
    }
    root
}

/// Builds the build-time trie for a dictionary: its prefix closure, traced
/// into pointer nodes.
pub fn convert_to_pointernode(token_dict: &TokenDict) -> (r: PointerByteNode)
    requires
        dict_wf(token_dict.entries@),
        token_dict.entries@.len() > 0,
        token_dict.entries@.len() * max_key_len(token_dict.entries@) < usize::MAX,
    ensures
        exists|m: Map<Seq<u8>, u64>|
            #[trigger] closure_ok(dict_map(token_dict.entries@), m) && trie_matches(r, m),
        r.spec_tree_size() <= token_dict.entries@.len() * max_key_len(token_dict.entries@) + 1,
{
    proof {
        lemma_max_key_len(token_dict.entries@, 0);
        assert(max_key_len(token_dict.entries@) < usize::MAX) by (nonlinear_arith)
            requires
                token_dict.entries@.len() >= 1,
                max_key_len(token_dict.entries@) >= 0,
                token_dict.entries@.len() * max_key_len(token_dict.entries@) < usize::MAX,
        ;
    }
    let closed = token_dict.include_token_prefixes();
    let root = trace_hashset_into_pointer_nodes(&closed);
    proof {
        let m = dict_map(closed.entries@);
        assert(closure_ok(dict_map(token_dict.entries@), m) && trie_matches(root, m));
    }
    root
}

/// Builds the flat tree for a dictionary: the trie of its prefix closure,
/// flattened.
pub fn convert_to_bytetree(token_dict: &TokenDict) -> (r: ByteTree)
    requires
        dict_wf(token_dict.entries@),
        token_dict.entries@.len() > 0,
        token_dict.entries@.len() * max_key_len(token_dict.entries@) < usize::MAX,
    ensures
        exists|m: Map<Seq<u8>, u64>, root: PointerByteNode|
            #[trigger] closure_ok(dict_map(token_dict.entries@), m) && trie_matches(root, m)
                && #[trigger] crate::bittree::flat_represents(r, 0, root),
{
    let node = convert_to_pointernode(token_dict);
    let tree = node.finalize();
    proof {
        let m = choose|m: Map<Seq<u8>, u64>|
            #[trigger] closure_ok(dict_map(token_dict.entries@), m) && trie_matches(node, m);
        assert(closure_ok(dict_map(token_dict.entries@), m) && trie_matches(node, m)
            && crate::bittree::flat_represents(tree, 0, node));
    }
    tree
}

} // verus!

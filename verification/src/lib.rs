//! A tokenizer engine built on a compact, pointer-free trie.
//!
//! A static dictionary of byte-sequence tokens is expanded by a prefix
//! closure, traced into a build-time trie, and flattened into three parallel
//! arrays addressable by integer offsets.  A lightweight cursor then supports
//! greedy longest-prefix tokenization of an arbitrary byte stream.

pub mod bitset;
pub mod bittree;
pub mod token_dict_conversion;

use crate::bittree::{flat_represents, ByteTree, PointerByteNode};
use crate::bittree::is_prefix_of;
use crate::token_dict_conversion::{
    closure_ok, convert_to_bytetree, covers_shortest, dict_map, dict_wf, max_key_len,
    trie_matches, TokenDict,
};
use vstd::prelude::*;
use vstd::string::StringSliceAdditionalSpecFns;
use vstd::utf8::encode_utf8;

verus! {

/// Why construction of a tokenizer can fail.
#[derive(Debug, PartialEq, Eq, Structural, Clone, Copy)]
pub enum TokenizerError {
    /// The dictionary holds no entries.
    EmptyDictionary,
    /// Two entries share one key, so the same child byte would be registered
    /// twice on one trie node.
    DuplicateChildInsertion,
}

/// How many bytes the greedy walk consumes from the front of `s`, having
/// already spelled the prefix `p`: one more whenever the extended prefix is
/// still a key of the closed dictionary `m`.
pub open spec fn greedy_ext(m: Map<Seq<u8>, u64>, p: Seq<u8>, s: Seq<u8>) -> int
    decreases s.len(),
{
    if s.len() > 0 && m.dom().contains(p.push(s[0])) {
        1 + greedy_ext(m, p.push(s[0]), s.skip(1))
    } else {
        0
    }
}

/// The greedy walk consumes between zero bytes and the whole input.
pub proof fn lemma_greedy_ext_bounds(m: Map<Seq<u8>, u64>, p: Seq<u8>, s: Seq<u8>)
    ensures
        0 <= greedy_ext(m, p, s) <= s.len(),
    decreases s.len(),
{
    if s.len() > 0 && m.dom().contains(p.push(s[0])) {
        lemma_greedy_ext_bounds(m, p.push(s[0]), s.skip(1));
    }
}

/// The token stream that greedy tokenization of `s` under the closed
/// dictionary `m` emits: the id of the longest matched prefix, repeatedly,
/// stopping when no byte matches, the input runs out, or the sentinel id
/// itself is emitted.
pub open spec fn spec_tokenize(m: Map<Seq<u8>, u64>, s: Seq<u8>) -> Seq<u64>
    decreases s.len(),
{
    let g = greedy_ext(m, Seq::empty(), s);
    if g < 1 || g > s.len() || m[s.take(g)] == u64::MAX {
        Seq::empty()
    } else {
        seq![m[s.take(g)]] + spec_tokenize(m, s.skip(g))
    }
}

/// The greedy tokenizer: owns the flat trie built from a token dictionary
/// and consumes an input byte stream one longest match at a time.
pub struct Tokenizer {
    tree: ByteTree,
    dict: Ghost<Map<Seq<u8>, u64>>,
    prefixes: Ghost<Map<Seq<u8>, u64>>,
    root: Ghost<PointerByteNode>,
}

/// UTF-8 encodes every character to at least one and at most four bytes.
pub proof fn lemma_encode_utf8_len(chars: Seq<char>)
    ensures
        chars.len() <= encode_utf8(chars).len() <= 4 * chars.len(),
    decreases chars.len(),
{
    if chars.len() > 0 {
        lemma_encode_utf8_len(chars.drop_first());
        assert(1 <= vstd::utf8::encode_scalar(chars[0] as u32).len() <= 4);
    }
}

/// The longest key of a string dictionary, in characters.
pub open spec fn max_char_key_len(s: Seq<(String, u64)>) -> int
    decreases s.len(),
{
    if s.len() == 0 {
        0
    } else if s.last().0@.len() > max_char_key_len(s.drop_last()) {
        s.last().0@.len() as int
    } else {
        max_char_key_len(s.drop_last())
    }
}

/// No key has more characters than the longest one.
pub proof fn lemma_max_char_key_len(s: Seq<(String, u64)>, i: int)
    requires
        0 <= i < s.len(),
    ensures
        s[i].0@.len() <= max_char_key_len(s),
    decreases s.len(),
{
    if i < s.len() - 1 {
        lemma_max_char_key_len(s.drop_last(), i);
    }
}

/// The UTF-8 bytes of the string, as an owned vector: empty exactly for the
/// empty string, and never longer than four bytes per character.
fn string_bytes(s: &String) -> (r: Vec<u8>)
    ensures
        r@ == encode_utf8(s@),
        s@.len() == 0 <==> r@.len() == 0,
        r@.len() <= 4 * s@.len(),
{
    let r = vstd::slice::slice_to_vec(s.as_str().as_bytes());
    proof {
        lemma_encode_utf8_len(s@);
    }
    r
}

impl Tokenizer {
    /// The dictionary the tokenizer was built from.
    pub closed spec fn spec_dict(&self) -> Map<Seq<u8>, u64> {
        self.dict@
    }

    /// The prefix closure of that dictionary, which the trie spells out.
    pub closed spec fn prefix_map(&self) -> Map<Seq<u8>, u64> {
        self.prefixes@
    }

    /// The flat trie is a faithful spelling of the prefix closure of the
    /// dictionary.
    pub closed spec fn wf(&self) -> bool {
        &&& closure_ok(self.dict@, self.prefixes@)
        &&& trie_matches(self.root@, self.prefixes@)
        &&& flat_represents(self.tree, 0, self.root@)
    }

    /// Builds a tokenizer from a dictionary of byte-sequence keys.  An empty
    /// dictionary and duplicate keys are construction errors, never panics.
    pub fn from_byte_token_dict(token_dict: &TokenDict) -> (r: Result<Tokenizer, TokenizerError>)
        requires
            forall|i: int|
                0 <= i < token_dict.entries@.len() ==> token_dict.entries@[i].0@.len() > 0,
            token_dict.entries@.len() * max_key_len(token_dict.entries@) < usize::MAX,
        ensures
            token_dict.entries@.len() == 0 ==> r == Result::<Tokenizer, TokenizerError>::Err(
                TokenizerError::EmptyDictionary,
            ),
            token_dict.entries@.len() > 0 && !dict_wf(token_dict.entries@) ==> r == Result::<
                Tokenizer,
                TokenizerError,
            >::Err(TokenizerError::DuplicateChildInsertion),
            token_dict.entries@.len() > 0 && dict_wf(token_dict.entries@) ==> r is Ok
                && r->Ok_0.wf() && r->Ok_0.spec_dict() == dict_map(token_dict.entries@),
    {
        let n = token_dict.entries.len();
        if n == 0 {
            return Err(TokenizerError::EmptyDictionary);
        }
        let mut i: usize = 0;
        while i < n
            invariant
                i <= n,
                n == token_dict.entries@.len(),
                forall|a: int, b: int|
                    0 <= a < i && a < b < n ==> token_dict.entries@[a].0@
                        != token_dict.entries@[b].0@,
            decreases n - i,
        {
            let mut j: usize = i + 1;
            while j < n
                invariant
                    i < j <= n,
                    n == token_dict.entries@.len(),
                    forall|b: int|
                        i < b < j ==> token_dict.entries@[i as int].0@
                            != token_dict.entries@[b].0@,
                decreases n - j,
            {
                if crate::token_dict_conversion::bytes_eq(
                    &token_dict.entries[i].0,
                    &token_dict.entries[j].0,
                ) {
                    return Err(TokenizerError::DuplicateChildInsertion);
                }
                j = j + 1;
            }
            i = i + 1;
        }
        let tree = convert_to_bytetree(token_dict);
        let ghost pair = choose|m: Map<Seq<u8>, u64>, root: PointerByteNode|
            #[trigger] closure_ok(dict_map(token_dict.entries@), m) && trie_matches(root, m)
                && #[trigger] flat_represents(tree, 0, root);
        Ok(
            Tokenizer {
                tree,
                dict: Ghost(dict_map(token_dict.entries@)),
                prefixes: Ghost(pair.0),
                root: Ghost(pair.1),
            },
        )
    }

    /// Builds a tokenizer from a dictionary of string keys, taken as their
    /// UTF-8 bytes.
    pub fn from_token_dict(token_dict: &Vec<(String, u64)>) -> (r: Result<
        Tokenizer,
        TokenizerError,
    >)
        requires
            forall|i: int| 0 <= i < token_dict@.len() ==> token_dict@[i].0@.len() > 0,
            token_dict@.len() * 4 * max_char_key_len(token_dict@) < usize::MAX,
        ensures
            token_dict@.len() == 0 ==> r == Result::<Tokenizer, TokenizerError>::Err(
                TokenizerError::EmptyDictionary,
            ),
            token_dict@.len() > 0 && (exists|i: int, j: int|
                #![trigger token_dict@[i], token_dict@[j]]
                0 <= i < j < token_dict@.len() && encode_utf8(token_dict@[i].0@) == encode_utf8(
                    token_dict@[j].0@,
                )) ==> r == Result::<Tokenizer, TokenizerError>::Err(
                TokenizerError::DuplicateChildInsertion,
            ),
            token_dict@.len() > 0 && (forall|i: int, j: int|
                #![trigger token_dict@[i], token_dict@[j]]
                0 <= i < j < token_dict@.len() ==> encode_utf8(token_dict@[i].0@) != encode_utf8(
                    token_dict@[j].0@,
                )) ==> r is Ok,
            r is Ok ==> r->Ok_0.wf(),
            r is Ok ==> forall|i: int|
                0 <= i < token_dict@.len() ==> r->Ok_0.spec_dict().dom().contains(
                    encode_utf8(#[trigger] token_dict@[i].0@),
                ) && r->Ok_0.spec_dict()[encode_utf8(token_dict@[i].0@)] == token_dict@[i].1,
            r is Ok ==> forall|k: Seq<u8>|
                #![trigger r->Ok_0.spec_dict().dom().contains(k)]
                r->Ok_0.spec_dict().dom().contains(k) ==> exists|i: int|
                    0 <= i < token_dict@.len() && encode_utf8(token_dict@[i].0@) == k,
    {
        let mut entries: Vec<(Vec<u8>, u64)> = Vec::new();
        let mut i: usize = 0;
        while i < token_dict.len()
            invariant
                i <= token_dict@.len(),
                entries@.len() == i,
                forall|j: int| 0 <= j < token_dict@.len() ==> token_dict@[j].0@.len() > 0,
                forall|j: int|
                    0 <= j < i ==> #[trigger] entries@[j].0@ == encode_utf8(token_dict@[j].0@)
                        && entries@[j].1 == token_dict@[j].1,
                forall|j: int| 0 <= j < i ==> #[trigger] entries@[j].0@.len() > 0,
                max_key_len(entries@) <= 4 * max_char_key_len(token_dict@),
            decreases token_dict@.len() - i,
        {
            let ghost before = entries@;
            let b = string_bytes(&token_dict[i].0);
            let id = token_dict[i].1;
            entries.push((b, id));
            proof {
                assert(entries@.drop_last() =~= before);
                assert(entries@.last() == (b, id));
                lemma_max_char_key_len(token_dict@, i as int);
            }
            i = i + 1;
        }
        let dict = TokenDict { entries };
        proof {
            assert(dict.entries@.len() * max_key_len(dict.entries@) <= token_dict@.len() * 4
                * max_char_key_len(token_dict@)) by (nonlinear_arith)
                requires
                    dict.entries@.len() == token_dict@.len(),
                    0 <= max_key_len(dict.entries@) <= 4 * max_char_key_len(token_dict@),
            ;
            if dict.entries@.len() > 0 {
                crate::token_dict_conversion::lemma_max_key_len(dict.entries@, 0);
            }
        }
        let r = Self::from_byte_token_dict(&dict);
        proof {
            let es = dict.entries@;
            let n = token_dict@.len();
            if n > 0 {
                if exists|i2: int, j2: int|
                    #![trigger token_dict@[i2], token_dict@[j2]]
                    0 <= i2 < j2 < n && encode_utf8(token_dict@[i2].0@) == encode_utf8(
                        token_dict@[j2].0@,
                    ) {
                    let (i2, j2) = choose|i2: int, j2: int|
                        #![trigger token_dict@[i2], token_dict@[j2]]
                        0 <= i2 < j2 < n && encode_utf8(token_dict@[i2].0@) == encode_utf8(
                            token_dict@[j2].0@,
                        );
                    assert(es[i2].0@ == es[j2].0@);
                    assert(!dict_wf(es));
                }
                if forall|i2: int, j2: int|
                    #![trigger token_dict@[i2], token_dict@[j2]]
                    0 <= i2 < j2 < n ==> encode_utf8(token_dict@[i2].0@) != encode_utf8(
                        token_dict@[j2].0@,
                    ) {
                    assert forall|i2: int, j2: int| 0 <= i2 < j2 < es.len() implies es[i2].0@
                        != es[j2].0@ by {
                        assert(es[i2].0@ == encode_utf8(token_dict@[i2].0@));
                        assert(es[j2].0@ == encode_utf8(token_dict@[j2].0@));
                    }
                    assert(dict_wf(es));
                }
            }
            if r is Ok {
                crate::token_dict_conversion::lemma_dict_map_props(es);
                assert(dict_wf(es));
                assert forall|i2: int|
                    0 <= i2 < n implies r->Ok_0.spec_dict().dom().contains(
                    encode_utf8(#[trigger] token_dict@[i2].0@),
                ) && r->Ok_0.spec_dict()[encode_utf8(token_dict@[i2].0@)]
                    == token_dict@[i2].1 by {
                    assert(es[i2].0@ == encode_utf8(token_dict@[i2].0@));
                    assert(forall|j2: int| i2 < j2 < es.len() ==> es[j2].0@ != es[i2].0@);
                    assert(dict_map(es).dom().contains(es[i2].0@) && dict_map(es)[es[i2].0@]
                        == es[i2].1);
                }
                assert forall|k: Seq<u8>|
                    #![trigger r->Ok_0.spec_dict().dom().contains(k)]
                    r->Ok_0.spec_dict().dom().contains(k) implies exists|i2: int|
                    0 <= i2 < n && encode_utf8(token_dict@[i2].0@) == k by {
                    let j2 = choose|j2: int| 0 <= j2 < es.len() && es[j2].0@ == k;
                    assert(encode_utf8(token_dict@[j2].0@) == k);
                }
            }
        }
        r
    }

    /// A well-formed tokenizer's prefix map is the prefix closure of its
    /// dictionary: callers of `nibble_token` and `tokenize` read their
    /// results back to the dictionary through this law.
    pub proof fn lemma_wf_closure(&self)
        requires
            self.wf(),
        ensures
            closure_ok(self.spec_dict(), self.prefix_map()),
    {
    }

    /// One greedy longest-match step.  Starting at `*pos`, consumes bytes as
    /// long as the trie has an edge for the next byte, and returns the token
    /// id of the node it stops at: the id of the longest dictionary-covered
    /// prefix, or the sentinel when no byte was consumed (input exhausted or
    /// no key starts with the next byte).
    pub fn nibble_token(&self, bytes: &Vec<u8>, pos: &mut usize) -> (r: u64)
        requires
            self.wf(),
            *old(pos) <= bytes@.len(),
        ensures
            *final(pos) == *old(pos) + greedy_ext(
                self.prefix_map(),
                Seq::empty(),
                bytes@.skip(*old(pos) as int),
            ),
            *old(pos) <= *final(pos) <= bytes@.len(),
            *final(pos) == *old(pos) ==> r == u64::MAX,
            *final(pos) > *old(pos) ==> self.prefix_map().dom().contains(
                bytes@.subrange(*old(pos) as int, *final(pos) as int),
            ) && r == self.prefix_map()[bytes@.subrange(*old(pos) as int, *final(pos) as int)],
        decreases bytes@.len() - *old(pos),
    {
        let ghost m = self.prefixes@;
        let ghost root = self.root@;
        let ghost start = *pos;
        let total_len = self.tree.values.len();
        let mut walker = self.tree.walker();
        let ghost mut node = root;
        let mut done = false;
        proof {
            assert(bytes@.subrange(start as int, start as int) =~= Seq::<u8>::empty());
            assert(root.subnode_at(Seq::<u8>::empty()) == Some(root));
        }
        while !done
            invariant
                done ==> greedy_ext(
                    m,
                    bytes@.subrange(start as int, *pos as int),
                    bytes@.skip(*pos as int),
                ) == 0,
                self.wf(),
                m == self.prefixes@,
                root == self.root@,
                start <= *pos <= bytes@.len(),
                total_len == self.tree.values@.len(),
                walker.spec_tree() == self.tree,
                root.subnode_at(bytes@.subrange(start as int, *pos as int)) == Some(node),
                flat_represents(self.tree, walker.spec_offset(), node),
                greedy_ext(m, Seq::empty(), bytes@.skip(start as int)) == (*pos - start)
                    + greedy_ext(
                    m,
                    bytes@.subrange(start as int, *pos as int),
                    bytes@.skip(*pos as int),
                ),
            decreases bytes@.len() - *pos + (if done {
                0int
            } else {
                1int
            }),
        {
            if *pos >= bytes.len() {
                done = true;
                proof {
                    assert(bytes@.skip(*pos as int).len() == 0);
                }
                continue ;
            }
            let ghost p = bytes@.subrange(start as int, *pos as int);
            let b = bytes[*pos];
            proof {
                lemma_subnode_snoc(root, p, b);
                assert(bytes@.skip(*pos as int)[0] == b);
                if node.has_child(b as int) {
                    assert(flat_represents(self.tree, walker.spec_offset(), node));
                    let co = self.tree.children_start@[walker.spec_offset()]
                        + self.tree.nodes@[walker.spec_offset()].rank_below(b as int);
                    assert(flat_represents(self.tree, co, node.child(b as int)));
                    assert(co < self.tree.values@.len());
                }
            }
            match walker.step(b as usize) {
                Some(next_walker) => {
                    walker = next_walker;
                    proof {
                        assert(node.has_child(b as int));
                        assert(root.subnode_at(p.push(b)) == Some(node.child(b as int)));
                        assert(m.dom().contains(p.push(b))) by {
                            assert(p.push(b).len() > 0);
                        }
                        assert(greedy_ext(m, p, bytes@.skip(*pos as int)) == 1 + greedy_ext(
                            m,
                            p.push(b),
                            bytes@.skip(*pos as int).skip(1),
                        ));
                        assert(bytes@.skip(*pos as int).skip(1) =~= bytes@.skip(*pos as int + 1));
                        assert(bytes@.subrange(start as int, *pos as int + 1) =~= p.push(b));
                        node = node.child(b as int);
                    }
                    *pos = *pos + 1;
                },
                None => {
                    done = true;
                    proof {
                        assert(!node.has_child(b as int));
                        assert(root.subnode_at(p.push(b)) is None);
                        assert(!m.dom().contains(p.push(b)));
                        assert(greedy_ext(m, p, bytes@.skip(*pos as int)) == 0);
                    }
                },
            }
        }
        proof {
            let p = bytes@.subrange(start as int, *pos as int);
            assert(greedy_ext(m, p, bytes@.skip(*pos as int)) == 0);
            if *pos == start {
                assert(p =~= Seq::<u8>::empty());
                assert(node == root);
            } else {
                assert(p.len() > 0);
                assert(m.dom().contains(p));
                assert(root.subnode_at(p)->Some_0.spec_value() == node.spec_value());
                assert(node.spec_value() == m[p]);
            }
            assert(self.tree.values@[walker.spec_offset()] == node.spec_value());
        }
        walker.value()
    }

    /// Tokenizes the whole input: repeatedly takes the greedy longest match
    /// and collects the ids until the sentinel is reached.
    pub fn tokenize(&self, bytes: &Vec<u8>) -> (r: Vec<u64>)
        requires
            self.wf(),
        ensures
            r@ == spec_tokenize(self.prefix_map(), bytes@),
    {
        let ghost m = self.prefixes@;
        let mut out: Vec<u64> = Vec::new();
        let mut pos: usize = 0;
        let mut done = false;
        proof {
            assert(bytes@.skip(0) =~= bytes@);
            assert(Seq::<u64>::empty() + spec_tokenize(m, bytes@) =~= spec_tokenize(m, bytes@));
        }
        while !done
            invariant
                self.wf(),
                m == self.prefixes@,
                pos <= bytes@.len(),
                !done ==> spec_tokenize(m, bytes@) == out@ + spec_tokenize(
                    m,
                    bytes@.skip(pos as int),
                ),
                done ==> spec_tokenize(m, bytes@) == out@,
            decreases bytes@.len() - pos + (if done {
                0int
            } else {
                1int
            }),
        {
            let ghost old_pos = pos;
            let tok = self.nibble_token(bytes, &mut pos);
            proof {
                let s = bytes@.skip(old_pos as int);
                let g = greedy_ext(m, Seq::empty(), s);
                lemma_greedy_ext_bounds(m, Seq::empty(), s);
                assert(s.take(g) =~= bytes@.subrange(old_pos as int, old_pos + g));
                assert(s.skip(g) =~= bytes@.skip(old_pos + g));
            }
            if tok == u64::MAX {
                done = true;
                proof {
                    let s = bytes@.skip(old_pos as int);
                    let g = greedy_ext(m, Seq::empty(), s);
                    assert(spec_tokenize(m, s) == Seq::<u64>::empty()) by {
                        if g >= 1 {
                            assert(m[s.take(g)] == u64::MAX);
                        }
                    }
                    assert(out@ + Seq::<u64>::empty() =~= out@);
                }
            } else {
                out.push(tok);
                proof {
                    let s = bytes@.skip(old_pos as int);
                    let g = greedy_ext(m, Seq::empty(), s);
                    assert(spec_tokenize(m, s) == seq![m[s.take(g)]] + spec_tokenize(
                        m,
                        s.skip(g),
                    ));
                    assert(out@ + spec_tokenize(m, bytes@.skip(pos as int)) =~= out@.drop_last()
                        + spec_tokenize(m, s));
                }
            }
        }
        out
    }
}

/// Extending a defined path by one byte leads to the matching child of the
/// node the path ends at, if the trie has one.
pub proof fn lemma_subnode_snoc(root: PointerByteNode, p: Seq<u8>, b: u8)
    requires
        root.subnode_at(p) is Some,
    ensures
        root.subnode_at(p.push(b)) == (if root.subnode_at(p)->Some_0.has_child(b as int) {
            Some(root.subnode_at(p)->Some_0.child(b as int))
        } else {
            None::<PointerByteNode>
        }),
    decreases p.len(),
{
    if p.len() == 0 {
        assert(root.subnode_at(p) == Some(root));
        assert(p.push(b)[0] == b);
        assert(p.push(b).skip(1) =~= Seq::<u8>::empty());
        if root.has_child(b as int) {
            assert(root.subnode_at(p.push(b)) == root.child(b as int).subnode_at(
                p.push(b).skip(1),
            ));
            assert(root.child(b as int).subnode_at(Seq::<u8>::empty()) == Some(
                root.child(b as int),
            ));
        }
    } else {
        assert(root.subnode_at(p) == root.child(p[0] as int).subnode_at(p.skip(1)));
        assert(p.push(b)[0] == p[0]);
        assert(p.push(b).skip(1) =~= p.skip(1).push(b));
        lemma_subnode_snoc(root.child(p[0] as int), p.skip(1), b);
        assert(root.subnode_at(p.push(b)) == root.child(p[0] as int).subnode_at(
            p.skip(1).push(b),
        ));
    }
}

/// The keys of `s`, concatenated in entry order.
pub open spec fn concat_keys(s: Seq<(Vec<u8>, u64)>) -> Seq<u8>
    decreases s.len(),
{
    if s.len() == 0 {
        Seq::empty()
    } else {
        s[0].0@ + concat_keys(s.skip(1))
    }
}

/// The ids of `s`, in entry order.
pub open spec fn key_ids(s: Seq<(Vec<u8>, u64)>) -> Seq<u64>
    decreases s.len(),
{
    if s.len() == 0 {
        Seq::empty()
    } else {
        seq![s[0].1] + key_ids(s.skip(1))
    }
}

/// No key of `d` is a strict prefix of another key of `d`.
pub open spec fn prefix_free(d: Map<Seq<u8>, u64>) -> bool {
    forall|k1: Seq<u8>, k2: Seq<u8>|
        d.dom().contains(k1) && d.dom().contains(k2) && k1 != k2 ==> !is_prefix_of(k1, k2)
}

/// Walking a dictionary key of a prefix-free dictionary, the greedy walk
/// consumes exactly the rest of that key and stops there, whatever follows.
proof fn lemma_greedy_walks_key(
    d: Map<Seq<u8>, u64>,
    m: Map<Seq<u8>, u64>,
    k: Seq<u8>,
    rest: Seq<u8>,
    j: int,
)
    requires
        closure_ok(d, m),
        prefix_free(d),
        d.dom().contains(k),
        k.len() > 0,
        0 <= j <= k.len(),
    ensures
        greedy_ext(m, k.take(j), k.skip(j) + rest) == k.len() - j,
    decreases k.len() - j,
{
    let s = k.skip(j) + rest;
    if j < k.len() {
        assert(s[0] == k[j]);
        assert(k.take(j).push(k[j]) =~= k.take(j + 1));
        assert(m.dom().contains(k.take(j + 1))) by {
            assert(is_prefix_of(k.take(j + 1), k)) by {
                assert(k.take(k.take(j + 1).len() as int) == k.take(j + 1));
            }
        }
        assert(s.skip(1) =~= k.skip(j + 1) + rest);
        lemma_greedy_walks_key(d, m, k, rest, j + 1);
    } else {
        assert(k.take(j) =~= k);
        if s.len() > 0 {
            let x = s[0];
            if m.dom().contains(k.push(x)) {
                let k2 = choose|k2: Seq<u8>| d.dom().contains(k2) && is_prefix_of(k.push(x), k2);
                assert(is_prefix_of(k, k2)) by {
                    assert(k2.take(k.push(x).len() as int) == k.push(x));
                    assert forall|i: int| 0 <= i < k.len() implies k2.take(k.len() as int)[i]
                        == k[i] by {
                        assert(k.push(x)[i] == k[i]);
                        assert(k2.take(k.push(x).len() as int)[i] == k2[i]);
                    }
                    assert(k2.take(k.len() as int) =~= k);
                }
                assert(k != k2);
                assert(false);
            }
        }
    }
}

/// With a prefix-free dictionary, greedy tokenization of the concatenation
/// of all keys in dictionary order yields exactly their ids in that order.
/// `m` is the prefix closure the tokenizer walks, and no id may equal the
/// sentinel, which would end tokenization early.
pub proof fn lemma_prefix_free_tokenization(ds: Seq<(Vec<u8>, u64)>, m: Map<Seq<u8>, u64>)
    requires
        dict_wf(ds),
        closure_ok(dict_map(ds), m),
        forall|i: int, j: int|
            0 <= i < ds.len() && 0 <= j < ds.len() && i != j ==> !is_prefix_of(
                ds[i].0@,
                ds[j].0@,
            ),
        forall|i: int| 0 <= i < ds.len() ==> ds[i].1 != u64::MAX,
    ensures
        spec_tokenize(m, concat_keys(ds)) == key_ids(ds),
{
    let d = dict_map(ds);
    crate::token_dict_conversion::lemma_dict_map_props(ds);
    assert forall|k1: Seq<u8>, k2: Seq<u8>|
        d.dom().contains(k1) && d.dom().contains(k2) && k1 != k2 implies !is_prefix_of(
        k1,
        k2,
    ) by {
        let i = choose|i: int| 0 <= i < ds.len() && ds[i].0@ == k1;
        let j = choose|j: int| 0 <= j < ds.len() && ds[j].0@ == k2;
    }
    assert forall|j: int| #![trigger ds[j]] 0 <= j < ds.len() implies d.dom().contains(ds[j].0@)
        && d[ds[j].0@] == ds[j].1 by {
        assert(forall|j2: int| j < j2 < ds.len() ==> ds[j2].0@ != ds[j].0@);
    }
    lemma_tokenize_key_list(d, m, ds);
}

/// The inductive heart of `lemma_prefix_free_tokenization`: tokenizing the
/// concatenation of any list of dictionary keys yields their ids.
proof fn lemma_tokenize_key_list(
    d: Map<Seq<u8>, u64>,
    m: Map<Seq<u8>, u64>,
    tail: Seq<(Vec<u8>, u64)>,
)
    requires
        closure_ok(d, m),
        prefix_free(d),
        forall|j: int|
            #![trigger tail[j]]
            0 <= j < tail.len() ==> d.dom().contains(tail[j].0@) && d[tail[j].0@] == tail[j].1
                && tail[j].1 != u64::MAX && tail[j].0@.len() > 0,
    ensures
        spec_tokenize(m, concat_keys(tail)) == key_ids(tail),
    decreases tail.len(),
{
    if tail.len() == 0 {
        assert(greedy_ext(m, Seq::empty(), concat_keys(tail)) == 0);
        assert(spec_tokenize(m, concat_keys(tail)) =~= key_ids(tail));
    } else {
        let k = tail[0].0@;
        let rest = concat_keys(tail.skip(1));
        let s = concat_keys(tail);
        assert(s == k + rest);
        lemma_greedy_walks_key(d, m, k, rest, 0);
        assert(k.take(0) =~= Seq::<u8>::empty());
        assert(k.skip(0) + rest =~= s);
        let g = greedy_ext(m, Seq::empty(), s);
        assert(g == k.len());
        assert(s.take(g) =~= k);
        assert(m[k] == d[k]) by {
            assert(m.dom().contains(k)) by {
                assert(is_prefix_of(k, k)) by {
                    assert(k.take(k.len() as int) =~= k);
                }
            }
            let kc = choose|kc: Seq<u8>| covers_shortest(d, k, kc) && m[k] == d[kc];
            assert(is_prefix_of(k, k)) by {
                assert(k.take(k.len() as int) =~= k);
            }
            assert(kc.len() <= k.len());
            assert(kc =~= k) by {
                assert(kc.take(k.len() as int) == k);
            }
        }
        assert(s.skip(g) =~= rest);
        assert forall|j: int|
            #![trigger tail.skip(1)[j]]
            0 <= j < tail.skip(1).len() implies d.dom().contains(tail.skip(1)[j].0@) && d[tail.skip(
            1,
        )[j].0@] == tail.skip(1)[j].1 && tail.skip(1)[j].1 != u64::MAX && tail.skip(
            1,
        )[j].0@.len() > 0 by {
            assert(tail.skip(1)[j] == tail[j + 1]);
        }
        lemma_tokenize_key_list(d, m, tail.skip(1));
        assert(spec_tokenize(m, s) == seq![m[s.take(g)]] + spec_tokenize(m, s.skip(g)));
        assert(spec_tokenize(m, s) =~= key_ids(tail));
    }
}

} // verus!

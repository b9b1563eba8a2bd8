//! The prefix automata: how they are built from pairs of key and value,
//! and the walk that finds the longest prefix of an input among the keys.
//!
//! The automata are those of the `fst` crate. What this module takes from
//! that crate it states in the contracts of a few small functions, each
//! named after the call it makes; the rest is proved from them.

use fst::raw::{Fst, Node};
use vstd::prelude::*;

verus! {

/// The automaton of the `fst` crate: an ordered map from byte strings to
/// `u64` values.
#[verifier::external_type_specification]
#[verifier::external_body]
#[verifier::reject_recursive_types(D)]
pub struct ExFst<D>(Fst<D>);

/// A node of such an automaton.
#[verifier::external_type_specification]
#[verifier::external_body]
pub struct ExNode<'f>(Node<'f>);

/// What the `fst` crate answers where it cannot build an automaton.
#[verifier::external_type_specification]
#[verifier::external_body]
pub struct ExFstError(fst::Error);

/// The keys of an automaton, each with its value.
pub uninterp spec fn fst_map(f: Fst<Vec<u8>>) -> Map<Seq<u8>, u64>;

/// Whether an automaton is one that the builder of `fst` has written.
pub uninterp spec fn fst_built(f: Fst<Vec<u8>>) -> bool;

/// What can still be read from a node: every byte string that leads from it
/// to an accepting node, with the outputs met on the way and the final
/// output of that node added up.
pub uninterp spec fn node_map(n: Node) -> Map<Seq<u8>, u64>;

/// Whether `n` is a node of `f`, the root or one that transitions lead to.
pub uninterp spec fn node_of(f: Fst<Vec<u8>>, n: Node) -> bool;

/// Whether `a` comes before `b` in the order of byte strings: at the first
/// place where they differ `a` has the smaller byte, or `a` ends first.
pub open spec fn lex_lt(a: Seq<u8>, b: Seq<u8>) -> bool
    decreases a.len(),
{
    if b.len() == 0 {
        false
    } else if a.len() == 0 {
        true
    } else if a[0] != b[0] {
        a[0] < b[0]
    } else {
        lex_lt(a.drop_first(), b.drop_first())
    }
}

/// Whether each key comes before the next one.
pub open spec fn keys_increase(pairs: Seq<(Vec<u8>, u64)>) -> bool {
    forall|i: int| 0 < i < pairs.len() ==> lex_lt(#[trigger] pairs[i - 1].0@, pairs[i].0@)
}

/// Whether no two pairs have the same key.
pub open spec fn distinct_keys(pairs: Seq<(Vec<u8>, u64)>) -> bool {
    forall|i: int, j: int|
        0 <= i < j < pairs.len() ==> (#[trigger] pairs[i]).0@ != (#[trigger] pairs[j]).0@
}

/// Whether `m` holds the keys of `pairs` and no others, each with the value
/// that stands beside it.
pub open spec fn holds_pairs(m: Map<Seq<u8>, u64>, pairs: Seq<(Vec<u8>, u64)>) -> bool {
    &&& forall|k: Seq<u8>|
        m.contains_key(k) <==> exists|i: int| 0 <= i < pairs.len() && #[trigger] pairs[i].0@ == k
    &&& forall|i: int|
        0 <= i < pairs.len() ==> m[#[trigger] pairs[i].0@] == pairs[i].1
}

/// How the strings read from `n` relate to those read from `m`, where a
/// transition on `b` with output `out` leads from `n` to `m`.
pub open spec fn follows(n: Node, b: u8, out: u64, m: Node) -> bool {
    forall|s: Seq<u8>|
        {
            &&& node_map(n).contains_key(#[trigger] (seq![b] + s)) <==> node_map(m).contains_key(s)
            &&& node_map(m).contains_key(s) ==> node_map(n)[seq![b] + s] == out + node_map(m)[s]
        }
}

/// `Fst::from_iter_map`: the builder takes the pairs one by one and fails
/// at the first key that does not come after the one before it. Where it
/// succeeds, the automaton holds the pairs it was given.
#[verifier::external_body]
fn fst_from_pairs(pairs: Vec<(Vec<u8>, u64)>) -> (r: Result<Fst<Vec<u8>>, fst::Error>)
    ensures
        r is Ok <==> keys_increase(pairs@),
        r matches Ok(f) ==> fst_built(f) && holds_pairs(fst_map(f), pairs@),
{
    Fst::from_iter_map(pairs)
}

/// `slice::sort_by` with the keys compared as byte strings: the pairs are
/// the same as before, and no key comes before one that stands earlier.
#[verifier::external_body]
fn sort_by_key(pairs: &mut Vec<(Vec<u8>, u64)>)
    ensures
        final(pairs)@.to_multiset() == old(pairs)@.to_multiset(),
        forall|i: int, j: int|
            0 <= i < j < final(pairs)@.len() ==> !lex_lt(
                #[trigger] final(pairs)@[j].0@,
                #[trigger] final(pairs)@[i].0@,
            ),
{
    pairs.sort_by(|a, b| a.0.cmp(&b.0));
}

/// `Fst::root`: the root of a built automaton reads exactly its keys, each
/// with its value.
#[verifier::external_body]
fn fst_root<'f>(f: &'f Fst<Vec<u8>>) -> (n: Node<'f>)
    requires
        fst_built(*f),
    ensures
        node_of(*f, n),
        node_map(n) == fst_map(*f),
{
    f.root()
}

/// `Node::is_final`: a node accepts exactly when the empty string can be
/// read from it.
#[verifier::external_body]
fn node_is_final(n: &Node) -> (r: bool)
    ensures
        r == node_map(*n).contains_key(Seq::<u8>::empty()),
{
    n.is_final()
}

/// `Node::final_output`: for an accepting node, the value that the empty
/// string has there.
#[verifier::external_body]
fn node_final_output(n: &Node) -> (r: u64)
    ensures
        node_map(*n).contains_key(Seq::<u8>::empty()) ==> r == node_map(*n)[Seq::<u8>::empty()],
{
    n.final_output().value()
}

/// `Node::find_input`, `Node::transition` and `Fst::node`, which together
/// follow the transition on one byte, as `Fst::get` does for each byte of
/// a key. Without such a transition nothing that begins with `b` can be
/// read from `n`. With one, what is read from the target is what is read
/// from `n` after `b`, and the transition's output is the difference of
/// the values.
#[verifier::external_body]
fn node_step<'f>(f: &'f Fst<Vec<u8>>, n: &Node<'f>, b: u8) -> (r: Option<(u64, Node<'f>)>)
    requires
        node_of(*f, *n),
    ensures
        match r {
            Some((out, m)) => node_of(*f, m) && follows(*n, b, out, m),
            None => forall|s: Seq<u8>| !node_map(*n).contains_key(#[trigger] (seq![b] + s)),
        },
{
    match n.find_input(b) {
        Some(i) => {
            let t = n.transition(i);
            Some((t.out.value(), f.node(t.addr)))
        },
        None => None,
    }
}

/// `Fst::get`: the value of a key, if the automaton holds it.
#[verifier::external_body]
pub(crate) fn fst_get(f: &Fst<Vec<u8>>, key: &[u8]) -> (r: Option<u64>)
    requires
        fst_built(*f),
    ensures
        r == if fst_map(*f).contains_key(key@) {
            Some(fst_map(*f)[key@])
        } else {
            None::<u64>
        },
{
    f.get(key).map(|out| out.value())
}

/// The length of the longest prefix of `input`, of at least one byte and at
/// most `n`, that is a key of `m`; 0 where there is none.
pub open spec fn longest_match(m: Map<Seq<u8>, u64>, input: Seq<u8>, n: int) -> int
    decreases n,
{
    if n <= 0 {
        0
    } else if m.contains_key(input.take(n)) {
        n
    } else {
        longest_match(m, input, n - 1)
    }
}

/// The longest prefix of `input`, of at least one byte, that is a key of
/// `m`: its length and its value.
pub open spec fn longest_prefix(m: Map<Seq<u8>, u64>, input: Seq<u8>) -> Option<(usize, u64)> {
    let n = longest_match(m, input, input.len() as int);
    if n == 0 {
        None
    } else {
        Some((n as usize, m[input.take(n)]))
    }
}

/// The longest prefix of `input`, of at least one byte and at most `n`,
/// that is a key of `m`: its length and its value.
pub open spec fn longest_prefix_within(m: Map<Seq<u8>, u64>, input: Seq<u8>, n: int) -> Option<
    (usize, u64),
> {
    let k = longest_match(m, input, n);
    if k == 0 {
        None
    } else {
        Some((k as usize, m[input.take(k)]))
    }
}

/// Whether the keys of `m` that begin with `p` are `p` followed by what is
/// read from `n`, with values that lie `acc` above those read from `n`.
spec fn reads(m: Map<Seq<u8>, u64>, p: Seq<u8>, acc: u64, n: Node) -> bool {
    forall|s: Seq<u8>|
        {
            &&& #[trigger] node_map(n).contains_key(s) <==> m.contains_key(p + s)
            &&& node_map(n).contains_key(s) ==> m[p + s] == acc + node_map(n)[s]
        }
}

/// No byte string comes before itself.
pub proof fn lemma_lex_irreflexive(a: Seq<u8>)
    ensures
        !lex_lt(a, a),
    decreases a.len(),
{
    if a.len() > 0 {
        lemma_lex_irreflexive(a.drop_first());
    }
}

/// What comes before something that comes before a third comes before the
/// third.
pub proof fn lemma_lex_transitive(a: Seq<u8>, b: Seq<u8>, c: Seq<u8>)
    requires
        lex_lt(a, b),
        lex_lt(b, c),
    ensures
        lex_lt(a, c),
    decreases a.len(),
{
    if a.len() > 0 && a[0] == b[0] && b[0] == c[0] {
        lemma_lex_transitive(a.drop_first(), b.drop_first(), c.drop_first());
    }
}

/// Of two different byte strings one comes before the other.
pub proof fn lemma_lex_total(a: Seq<u8>, b: Seq<u8>)
    requires
        a != b,
    ensures
        lex_lt(a, b) || lex_lt(b, a),
    decreases a.len(),
{
    if a.len() == 0 || b.len() == 0 {
        if a.len() == 0 && b.len() == 0 {
            assert(a =~= b);
        }
    } else if a[0] == b[0] {
        if a.drop_first() == b.drop_first() {
            assert(a =~= seq![a[0]] + a.drop_first());
            assert(b =~= seq![b[0]] + b.drop_first());
        }
        lemma_lex_total(a.drop_first(), b.drop_first());
    }
}

/// Where each key comes before the next, each comes before all later ones.
pub proof fn lemma_keys_increase(pairs: Seq<(Vec<u8>, u64)>, i: int, j: int)
    requires
        keys_increase(pairs),
        0 <= i < j < pairs.len(),
    ensures
        lex_lt(pairs[i].0@, pairs[j].0@),
    decreases j - i,
{
    assert(lex_lt(pairs[j - 1].0@, pairs[j].0@));
    if i < j - 1 {
        lemma_keys_increase(pairs, i, j - 1);
        lemma_lex_transitive(pairs[i].0@, pairs[j - 1].0@, pairs[j].0@);
    }
}

/// The longest match is a length within the bounds, and a key where it is
/// not 0.
pub proof fn lemma_longest_match_bounds(m: Map<Seq<u8>, u64>, input: Seq<u8>, n: int)
    ensures
        0 <= longest_match(m, input, n),
        n >= 0 ==> longest_match(m, input, n) <= n,
        longest_match(m, input, n) > 0 ==> m.contains_key(
            input.take(longest_match(m, input, n)),
        ),
    decreases n,
{
    if n > 0 && !m.contains_key(input.take(n)) {
        lemma_longest_match_bounds(m, input, n - 1);
    }
}

/// No prefix longer than the longest match is a key.
pub proof fn lemma_longest_match_max(m: Map<Seq<u8>, u64>, input: Seq<u8>, n: int, k: int)
    requires
        longest_match(m, input, n) < k <= n,
    ensures
        !m.contains_key(input.take(k)),
    decreases n,
{
    if n > 0 && k < n {
        lemma_longest_match_bounds(m, input, n);
        lemma_longest_match_max(m, input, n - 1, k);
    }
}

/// Between `i` and `n` no prefix of `input` is a key.
proof fn lemma_longest_match_skip(m: Map<Seq<u8>, u64>, input: Seq<u8>, i: int, n: int)
    requires
        0 <= i <= n,
        forall|k: int| i < k <= n ==> !m.contains_key(#[trigger] input.take(k)),
    ensures
        longest_match(m, input, n) == longest_match(m, input, i),
    decreases n - i,
{
    if i < n {
        lemma_longest_match_skip(m, input, i, n - 1);
    }
}

/// A transition on the next byte of the input keeps the walk in step with
/// the keys. Where a key lies ahead, the outputs met so far add up without
/// wrapping, as they are part of its value.
proof fn lemma_reads_step(
    m: Map<Seq<u8>, u64>,
    input: Seq<u8>,
    i: int,
    acc: u64,
    n: Node,
    out: u64,
    next: Node,
)
    requires
        0 <= i < input.len(),
        reads(m, input.take(i), acc, n),
        follows(n, input[i], out, next),
    ensures
        reads(m, input.take(i + 1), acc.wrapping_add(out), next),
{
    let p = input.take(i);
    let q = input.take(i + 1);
    assert forall|s: Seq<u8>|
        {
            &&& #[trigger] node_map(next).contains_key(s) <==> m.contains_key(q + s)
            &&& node_map(next).contains_key(s) ==> m[q + s] == acc.wrapping_add(out) + node_map(
                next,
            )[s]
        } by {
        let bs = seq![input[i]] + s;
        assert(q + s =~= p + bs);
        assert(node_map(n).contains_key(bs) <==> node_map(next).contains_key(s));
        assert(node_map(n).contains_key(bs) <==> m.contains_key(p + bs));
    }
}

/// Where no transition leaves on the next byte of the input, no longer
/// prefix of the input is a key.
proof fn lemma_reads_stop(m: Map<Seq<u8>, u64>, input: Seq<u8>, i: int, acc: u64, n: Node)
    requires
        0 <= i < input.len(),
        reads(m, input.take(i), acc, n),
        forall|s: Seq<u8>| !node_map(n).contains_key(#[trigger] (seq![input[i]] + s)),
    ensures
        longest_match(m, input, input.len() as int) == longest_match(m, input, i),
{
    let p = input.take(i);
    assert forall|k: int| i < k <= input.len() implies !m.contains_key(
        #[trigger] input.take(k),
    ) by {
        let s = input.subrange(i + 1, k);
        let bs = seq![input[i]] + s;
        assert(input.take(k) =~= p + bs);
        assert(!node_map(n).contains_key(bs));
    }
    lemma_longest_match_skip(m, input, i, input.len() as int);
}

/// Sorting keeps the keys distinct if they were, and makes them increase
/// exactly then.
proof fn lemma_sorted_keys(before: Seq<(Vec<u8>, u64)>, after: Seq<(Vec<u8>, u64)>)
    requires
        after.to_multiset() == before.to_multiset(),
        forall|i: int, j: int|
            0 <= i < j < after.len() ==> !lex_lt(#[trigger] after[j].0@, #[trigger] after[i].0@),
    ensures
        keys_increase(after) <==> distinct_keys(before),
        forall|m: Map<Seq<u8>, u64>| holds_pairs(m, after) ==> #[trigger] holds_pairs(m, before),
{
    broadcast use vstd::seq_lib::group_to_multiset_ensures;

    assert forall|i: int| 0 <= i < before.len() implies after.contains(#[trigger] before[i]) by {
        assert(before.contains(before[i]));
        assert(before.to_multiset().count(before[i]) > 0);
    }
    assert forall|i: int| 0 <= i < after.len() implies before.contains(#[trigger] after[i]) by {
        assert(after.contains(after[i]));
        assert(after.to_multiset().count(after[i]) > 0);
    }
    if distinct_keys(before) {
        assert(before.no_duplicates());
        before.lemma_multiset_has_no_duplicates();
        after.lemma_multiset_has_no_duplicates_conv();
        assert forall|i: int| 0 < i < after.len() implies lex_lt(
            #[trigger] after[i - 1].0@,
            after[i].0@,
        ) by {
            let x = after[i - 1];
            let y = after[i];
            assert(x != y);
            assert(before.contains(x) && before.contains(y));
            let a = choose|a: int| 0 <= a < before.len() && before[a] == x;
            let b = choose|b: int| 0 <= b < before.len() && before[b] == y;
            assert(a != b);
            assert(x.0@ != y.0@);
            assert(!lex_lt(after[i].0@, after[i - 1].0@));
            lemma_lex_total(x.0@, y.0@);
        }
    }
    if keys_increase(after) {
        assert forall|i: int, j: int| 0 <= i < j < after.len() implies (#[trigger] after[i]).0@ != (
        #[trigger] after[j]).0@ by {
            lemma_keys_increase(after, i, j);
            lemma_lex_irreflexive(after[i].0@);
        }
        assert(after.no_duplicates());
        after.lemma_multiset_has_no_duplicates();
        before.lemma_multiset_has_no_duplicates_conv();
        assert forall|i: int, j: int| 0 <= i < j < before.len() implies (#[trigger] before[i]).0@
            != (#[trigger] before[j]).0@ by {
            let x = before[i];
            let y = before[j];
            assert(x != y);
            assert(after.contains(x) && after.contains(y));
            let a = choose|a: int| 0 <= a < after.len() && after[a] == x;
            let b = choose|b: int| 0 <= b < after.len() && after[b] == y;
            assert(a != b);
            if a < b {
                assert(after[a].0@ != after[b].0@);
            } else {
                assert(after[b].0@ != after[a].0@);
            }
        }
    }
    assert forall|m: Map<Seq<u8>, u64>| holds_pairs(m, after) implies #[trigger] holds_pairs(
        m,
        before,
    ) by {
        assert forall|k: Seq<u8>| m.contains_key(k) <==> exists|i: int|
            0 <= i < before.len() && #[trigger] before[i].0@ == k by {
            if m.contains_key(k) {
                let a = choose|a: int| 0 <= a < after.len() && #[trigger] after[a].0@ == k;
                assert(before.contains(after[a]));
                let b = choose|b: int| 0 <= b < before.len() && before[b] == after[a];
                assert(before[b].0@ == k);
            }
            if exists|i: int| 0 <= i < before.len() && #[trigger] before[i].0@ == k {
                let b = choose|b: int| 0 <= b < before.len() && #[trigger] before[b].0@ == k;
                assert(after.contains(before[b]));
                let a = choose|a: int| 0 <= a < after.len() && after[a] == before[b];
                assert(after[a].0@ == k);
            }
        }
        assert forall|i: int| 0 <= i < before.len() implies m[#[trigger] before[i].0@]
            == before[i].1 by {
            assert(after.contains(before[i]));
            let a = choose|a: int| 0 <= a < after.len() && after[a] == before[i];
            assert(m[after[a].0@] == after[a].1);
        }
    }
}

/// Walks `fst` along `input` byte by byte, as far as transitions lead, and
/// returns the last place at which the bytes read so far were a key: the
/// number of bytes, at least one, and the key's value.
pub fn find_longest_prefix(fst: &Fst<Vec<u8>>, input: &[u8]) -> (r: Option<(usize, u64)>)
    requires
        fst_built(*fst),
    ensures
        r == longest_prefix(fst_map(*fst), input@),
{
    let ghost m = fst_map(*fst);
    let mut node = fst_root(fst);
    let mut out: u64 = 0;
    let mut last_match: Option<(usize, u64)> = None;
    let mut i: usize = 0;
    proof {
        assert forall|s: Seq<u8>| input@.take(0) + s == s by {
            assert(input@.take(0) + s =~= s);
        }
    }
    while i < input.len()
        invariant
            i <= input.len(),
            m == fst_map(*fst),
            node_of(*fst, node),
            reads(m, input@.take(i as int), out, node),
            last_match == longest_prefix_within(m, input@, i as int),
        decreases input.len() - i,
    {
        match node_step(fst, &node, input[i]) {
            Some((t_out, next)) => {
                proof {
                    lemma_reads_step(m, input@, i as int, out, node, t_out, next);
                }
                out = out.wrapping_add(t_out);
                node = next;
                i = i + 1;
                proof {
                    assert(input@.take(i as int) + Seq::<u8>::empty() =~= input@.take(i as int));
                }
                if node_is_final(&node) {
                    last_match = Some((i, out.wrapping_add(node_final_output(&node))));
                }
            },
            None => {
                proof {
                    lemma_reads_stop(m, input@, i as int, out, node);
                }
                return last_match;
            },
        }
    }
    last_match
}

/// Why an automaton cannot be built: two of the pairs have the same key.
#[derive(Debug, Clone, Copy, PartialEq, Eq, Structural)]
pub struct DuplicateKey;

/// Builds the automaton that holds the given pairs. This works where no
/// key stands in them twice, and only there.
pub fn build_automaton(pairs: Vec<(Vec<u8>, u64)>) -> (r: Result<Fst<Vec<u8>>, DuplicateKey>)
    ensures
        r is Ok <==> distinct_keys(pairs@),
        r matches Ok(f) ==> fst_built(f) && holds_pairs(fst_map(f), pairs@),
{
    let mut sorted = pairs;
    sort_by_key(&mut sorted);
    proof {
        lemma_sorted_keys(pairs@, sorted@);
    }
    match fst_from_pairs(sorted) {
        Ok(fst) => Ok(fst),
        Err(_) => Err(DuplicateKey),
    }
}

} // verus!

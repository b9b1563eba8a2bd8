//! Why loading a vocabulary yields its starters and followers: the lists
//! that are made of its lines, and the maps that hold them.

use crate::automaton::{distinct_keys, holds_pairs};
use crate::vocab::{
    distinct, entry, follower_at, follower_key, followers, is_follower, is_starter,
    lemma_follower_id, lemma_starter_id, role, starter_at, starters,
};
use vstd::prelude::*;

verus! {

/// Whether `pairs` lists, in the order of their ids, the keys and ids of
/// the lines before `n` that `at` holds of, and nothing else.
pub open spec fn lists(
    pairs: Seq<(Vec<u8>, u64)>,
    n: int,
    at: spec_fn(Seq<u8>, int) -> bool,
) -> bool {
    &&& forall|j: int|
        0 <= j < pairs.len() ==> (#[trigger] pairs[j]).1 < n && at(pairs[j].0@, pairs[j].1 as int)
    &&& forall|k: Seq<u8>, t: int|
        0 <= t < n && #[trigger] at(k, t) ==> exists|j: int|
            0 <= j < pairs.len() && (#[trigger] pairs[j]).1 == t && pairs[j].0@ == k
    &&& forall|i: int, j: int|
        0 <= i < j < pairs.len() ==> (#[trigger] pairs[i]).1 < (#[trigger] pairs[j]).1
}

/// Whether `pairs` lists the starters among the first `n` lines.
pub open spec fn lists_starters(pairs: Seq<(Vec<u8>, u64)>, table: Seq<Seq<char>>, n: int) -> bool {
    lists(pairs, n, |k: Seq<u8>, t: int| starter_at(table, k, t))
}

/// Whether `pairs` lists the followers among the first `n` lines.
pub open spec fn lists_followers(
    pairs: Seq<(Vec<u8>, u64)>,
    table: Seq<Seq<char>>,
    n: int,
) -> bool {
    lists(pairs, n, |k: Seq<u8>, t: int| follower_at(table, k, t))
}

/// A list has a key twice exactly where two lines have it.
pub proof fn lemma_lists_distinct(
    pairs: Seq<(Vec<u8>, u64)>,
    n: int,
    at: spec_fn(Seq<u8>, int) -> bool,
)
    requires
        lists(pairs, n, at),
    ensures
        distinct_keys(pairs) <==> forall|k: Seq<u8>, i: int, j: int|
            0 <= i < n && 0 <= j < n && #[trigger] at(k, i) && #[trigger] at(k, j) ==> i == j,
{
    if distinct_keys(pairs) {
        assert forall|k: Seq<u8>, i: int, j: int|
            0 <= i < n && 0 <= j < n && #[trigger] at(k, i) && #[trigger] at(k, j) implies i
            == j by {
            let a = choose|a: int| 0 <= a < pairs.len() && (#[trigger] pairs[a]).1 == i && pairs[a].0@ == k;
            let b = choose|b: int| 0 <= b < pairs.len() && (#[trigger] pairs[b]).1 == j && pairs[b].0@ == k;
            if a < b {
                assert(pairs[a].0@ != pairs[b].0@);
            } else if b < a {
                assert(pairs[b].0@ != pairs[a].0@);
            }
        }
    } else {
        let (a, b) = choose|a: int, b: int|
            0 <= a < b < pairs.len() && (#[trigger] pairs[a]).0@ == (#[trigger] pairs[b]).0@;
        let k = pairs[a].0@;
        assert(at(k, pairs[a].1 as int));
        assert(at(k, pairs[b].1 as int));
        assert(pairs[a].1 < pairs[b].1);
    }
}

/// A map that holds a list without double keys has each key of the lines
/// with its id, and no other key.
pub proof fn lemma_lists_lookup(
    pairs: Seq<(Vec<u8>, u64)>,
    n: int,
    at: spec_fn(Seq<u8>, int) -> bool,
    m: Map<Seq<u8>, u64>,
)
    requires
        lists(pairs, n, at),
        distinct_keys(pairs),
        holds_pairs(m, pairs),
    ensures
        forall|k: Seq<u8>, t: int|
            0 <= t < n && #[trigger] at(k, t) ==> m.contains_key(k) && m[k] == t,
        forall|k: Seq<u8>| #[trigger]
            m.contains_key(k) ==> 0 <= m[k] < n && at(k, m[k] as int),
{
    assert forall|k: Seq<u8>, t: int| 0 <= t < n && #[trigger] at(k, t) implies m.contains_key(k)
        && m[k] == t by {
        let a = choose|a: int| 0 <= a < pairs.len() && (#[trigger] pairs[a]).1 == t && pairs[a].0@ == k;
        assert(pairs[a].0@ == k);
    }
    assert forall|k: Seq<u8>| #[trigger] m.contains_key(k) implies 0 <= m[k] < n && at(
        k,
        m[k] as int,
    ) by {
        let a = choose|a: int| 0 <= a < pairs.len() && #[trigger] pairs[a].0@ == k;
        assert(m[pairs[a].0@] == pairs[a].1);
    }
}

/// The maps that hold the lists of a table's starters and followers are
/// its starters and followers, where no entry stands twice.
pub proof fn lemma_lists_maps(
    table: Seq<Seq<char>>,
    first: Seq<(Vec<u8>, u64)>,
    second: Seq<(Vec<u8>, u64)>,
)
    requires
        lists_starters(first, table, table.len() as int),
        lists_followers(second, table, table.len() as int),
        table.len() <= u64::MAX,
    ensures
        distinct(table) <==> distinct_keys(first) && distinct_keys(second),
        distinct(table) ==> forall|m: Map<Seq<u8>, u64>| #[trigger]
            holds_pairs(m, first) ==> m == starters(table),
        distinct(table) ==> forall|m: Map<Seq<u8>, u64>| #[trigger]
            holds_pairs(m, second) ==> m == followers(table),
{
    let n = table.len() as int;
    let s_at = |k: Seq<u8>, t: int| starter_at(table, k, t);
    let f_at = |k: Seq<u8>, t: int| follower_at(table, k, t);
    lemma_lists_distinct(first, n, s_at);
    lemma_lists_distinct(second, n, f_at);
    if distinct_keys(first) && distinct_keys(second) {
        assert forall|k: Seq<u8>, i: int, j: int| #[trigger]
            starter_at(table, k, i) && #[trigger] starter_at(table, k, j) implies i == j by {
            assert(s_at(k, i) && s_at(k, j));
        }
        assert forall|k: Seq<u8>, i: int, j: int| #[trigger]
            follower_at(table, k, i) && #[trigger] follower_at(table, k, j) implies i == j by {
            assert(f_at(k, i) && f_at(k, j));
        }
    }
    if distinct(table) {
        assert forall|k: Seq<u8>, i: int, j: int|
            0 <= i < n && 0 <= j < n && #[trigger] s_at(k, i) && #[trigger] s_at(k, j) implies i
            == j by {
            assert(starter_at(table, k, i) && starter_at(table, k, j));
        }
        assert forall|k: Seq<u8>, i: int, j: int|
            0 <= i < n && 0 <= j < n && #[trigger] f_at(k, i) && #[trigger] f_at(k, j) implies i
            == j by {
            assert(follower_at(table, k, i) && follower_at(table, k, j));
        }
        assert forall|m: Map<Seq<u8>, u64>| #[trigger] holds_pairs(m, first) implies m == starters(
            table,
        ) by {
            lemma_lists_lookup(first, n, s_at, m);
            assert forall|k: Seq<u8>| m.contains_key(k) <==> starters(table).contains_key(k) by {
                if m.contains_key(k) {
                    assert(s_at(k, m[k] as int));
                    assert(starter_at(table, k, m[k] as int));
                }
                if starters(table).contains_key(k) {
                    let i = choose|i: int| starter_at(table, k, i);
                    assert(s_at(k, i));
                }
            }
            assert forall|k: Seq<u8>| m.contains_key(k) implies m[k] == starters(table)[k] by {
                assert(s_at(k, m[k] as int));
                lemma_starter_id(table, k, m[k] as int);
            }
            assert(m =~= starters(table));
        }
        assert forall|m: Map<Seq<u8>, u64>| #[trigger] holds_pairs(m, second) implies m
            == followers(table) by {
            lemma_lists_lookup(second, n, f_at, m);
            assert forall|k: Seq<u8>| m.contains_key(k) <==> followers(table).contains_key(k) by {
                if m.contains_key(k) {
                    assert(f_at(k, m[k] as int));
                    assert(follower_at(table, k, m[k] as int));
                }
                if followers(table).contains_key(k) {
                    let i = choose|i: int| follower_at(table, k, i);
                    assert(f_at(k, i));
                }
            }
            assert forall|k: Seq<u8>| m.contains_key(k) implies m[k] == followers(table)[k] by {
                assert(f_at(k, m[k] as int));
                lemma_follower_id(table, k, m[k] as int);
            }
            assert(m =~= followers(table));
        }
    }
}

/// Whether `found` is the line among the first `n` that is a starter and
/// reads `literal`, or nothing where there is none.
pub open spec fn finds(
    table: Seq<Seq<char>>,
    literal: Seq<u8>,
    n: int,
    found: Option<u64>,
) -> bool {
    match found {
        Some(t) => t < n && starter_at(table, literal, t as int),
        None => forall|t: int| 0 <= t < n ==> !starter_at(table, literal, t),
    }
}

/// In a table without double entries, what was found for a literal is its
/// role.
pub proof fn lemma_finds_role(table: Seq<Seq<char>>, literal: Seq<u8>, found: Option<u64>)
    requires
        distinct(table),
        finds(table, literal, table.len() as int, found),
    ensures
        found == role(table, literal),
{
    match found {
        Some(t) => {
            lemma_starter_id(table, literal, t as int);
        },
        None => {
            if starters(table).contains_key(literal) {
                let i = choose|i: int| starter_at(table, literal, i);
                assert(starter_at(table, literal, i));
            }
        },
    }
}

/// What a list holds after one more has been put behind it.
pub proof fn lemma_push_contains(ids: Seq<u64>, id: u64)
    ensures
        forall|x: u64| ids.push(id).contains(x) <==> ids.contains(x) || x == id,
{
    let more = ids.push(id);
    assert forall|x: u64| more.contains(x) <==> ids.contains(x) || x == id by {
        if more.contains(x) {
            let j = choose|j: int| 0 <= j < more.len() && more[j] == x;
            if j < ids.len() {
                assert(ids[j] == x);
            }
        }
        if ids.contains(x) {
            let j = choose|j: int| 0 <= j < ids.len() && ids[j] == x;
            assert(more[j] == x);
        }
        assert(more[ids.len() as int] == id);
    }
}

/// A list of the lines before `n` is one of the lines up to `n` where `at`
/// holds of no key there; and so it is with the pair of the key and `n`
/// behind it, where `at` holds there of that key alone.
pub proof fn lemma_lists_grow(
    pairs: Seq<(Vec<u8>, u64)>,
    n: int,
    at: spec_fn(Seq<u8>, int) -> bool,
)
    requires
        lists(pairs, n, at),
        0 <= n < u64::MAX,
    ensures
        (forall|k: Seq<u8>| !#[trigger] at(k, n)) ==> lists(pairs, n + 1, at),
        forall|key: Vec<u8>|
            at(key@, n) && (forall|k: Seq<u8>| #[trigger] at(k, n) ==> k == key@) ==> lists(
                #[trigger] pairs.push((key, n as u64)),
                n + 1,
                at,
            ),
{
    assert forall|key: Vec<u8>|
        at(key@, n) && (forall|k: Seq<u8>| #[trigger] at(k, n) ==> k == key@) implies lists(
        #[trigger] pairs.push((key, n as u64)),
        n + 1,
        at,
    ) by {
        let more = pairs.push((key, n as u64));
        assert forall|k: Seq<u8>, t: int| 0 <= t < n + 1 && #[trigger] at(k, t) implies exists|
            j: int,
        |
            0 <= j < more.len() && (#[trigger] more[j]).1 == t && more[j].0@ == k by {
            if t < n {
                let j = choose|j: int|
                    0 <= j < pairs.len() && (#[trigger] pairs[j]).1 == t && pairs[j].0@ == k;
                assert(more[j] == pairs[j]);
            } else {
                assert(more[pairs.len() as int].1 == t);
            }
        }
    }
}

/// How the lists of starters and followers go on with line `n`: it comes
/// behind the starters or behind the followers, as its bytes tell, or it
/// is left out.
pub proof fn lemma_lists_line(
    table: Seq<Seq<char>>,
    first: Seq<(Vec<u8>, u64)>,
    second: Seq<(Vec<u8>, u64)>,
    n: int,
)
    requires
        lists_starters(first, table, n),
        lists_followers(second, table, n),
        0 <= n < table.len(),
        n < u64::MAX,
    ensures
        !is_starter(entry(table, n)) ==> lists_starters(first, table, n + 1),
        !is_follower(entry(table, n)) ==> lists_followers(second, table, n + 1),
        is_starter(entry(table, n)) ==> forall|key: Vec<u8>|
            key@ == entry(table, n) ==> lists_starters(
                #[trigger] first.push((key, n as u64)),
                table,
                n + 1,
            ),
        is_follower(entry(table, n)) ==> forall|key: Vec<u8>|
            key@ == follower_key(entry(table, n)) ==> lists_followers(
                #[trigger] second.push((key, n as u64)),
                table,
                n + 1,
            ),
{
    lemma_lists_grow(first, n, |k: Seq<u8>, t: int| starter_at(table, k, t));
    lemma_lists_grow(second, n, |k: Seq<u8>, t: int| follower_at(table, k, t));
}

} // verus!

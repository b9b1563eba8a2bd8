//! The vocabulary table: what its lines mean.
//!
//! A table is a list of token strings, and a token's place in it is its id.
//! Lines are told apart by the bytes they begin and end with.

use crate::segment::Lexicon;
use vstd::prelude::*;
use vstd::string::StringSliceAdditionalSpecFns;
use vstd::utf8::{encode_utf8, is_ascii_chars_encode_utf8};

verus! {

/// The token given to words that cannot be cut into entries.
pub const UNK_TOKEN: &'static str = "[UNK]";

/// The token that is put before the first word.
pub const PREFIX_TOKEN: &'static str = "[CLS]";

/// The token that is put after the last word.
pub const SUFFIX_TOKEN: &'static str = "[SEP]";

/// What the lines begin with that only keep an id free.
pub const UNUSED_MARKER: &'static str = "[unused";

/// What the entries begin with that continue a word.
pub const CONTINUATION_MARKER: &'static str = "##";

/// What special tokens begin with.
pub const SPECIAL_OPEN: &'static str = "[";

/// What special tokens end with.
pub const SPECIAL_CLOSE: &'static str = "]";

/// Whether `t` begins with `p`.
pub open spec fn begins_with(t: Seq<u8>, p: Seq<u8>) -> bool {
    p.len() <= t.len() && t.take(p.len() as int) == p
}

/// Whether `t` ends with `p`.
pub open spec fn ends_with(t: Seq<u8>, p: Seq<u8>) -> bool {
    p.len() <= t.len() && t.skip(t.len() - p.len()) == p
}

/// Whether a line only keeps an id free.
pub open spec fn is_unused(t: Seq<u8>) -> bool {
    begins_with(t, UNUSED_MARKER.spec_bytes())
}

/// Whether a line is a special token: in brackets, and not one that only
/// keeps an id free.
pub open spec fn is_special_line(t: Seq<u8>) -> bool {
    &&& !is_unused(t)
    &&& begins_with(t, SPECIAL_OPEN.spec_bytes())
    &&& ends_with(t, SPECIAL_CLOSE.spec_bytes())
}

/// Whether a line is an entry that continues a word.
pub open spec fn is_follower(t: Seq<u8>) -> bool {
    !is_unused(t) && begins_with(t, CONTINUATION_MARKER.spec_bytes())
}

/// Whether a line is an entry that begins a word.
pub open spec fn is_starter(t: Seq<u8>) -> bool {
    !is_unused(t) && !begins_with(t, CONTINUATION_MARKER.spec_bytes())
}

/// A follower without its marker.
pub open spec fn follower_key(t: Seq<u8>) -> Seq<u8> {
    t.skip(CONTINUATION_MARKER.spec_bytes().len() as int)
}

/// The bytes of line `i`.
pub open spec fn entry(table: Seq<Seq<char>>, i: int) -> Seq<u8> {
    encode_utf8(table[i])
}

/// Whether line `i` is a starter that reads `key`.
pub open spec fn starter_at(table: Seq<Seq<char>>, key: Seq<u8>, i: int) -> bool {
    0 <= i < table.len() && is_starter(entry(table, i)) && entry(table, i) == key
}

/// Whether line `i` is a follower that reads `key` after its marker.
pub open spec fn follower_at(table: Seq<Seq<char>>, key: Seq<u8>, i: int) -> bool {
    0 <= i < table.len() && is_follower(entry(table, i)) && follower_key(entry(table, i)) == key
}

/// Whether no two starters read the same, and no two followers.
pub open spec fn distinct(table: Seq<Seq<char>>) -> bool {
    &&& forall|k: Seq<u8>, i: int, j: int|
        #[trigger] starter_at(table, k, i) && #[trigger] starter_at(table, k, j) ==> i == j
    &&& forall|k: Seq<u8>, i: int, j: int|
        #[trigger] follower_at(table, k, i) && #[trigger] follower_at(table, k, j) ==> i == j
}

/// The starters of a table, each with its id.
pub open spec fn starters(table: Seq<Seq<char>>) -> Map<Seq<u8>, u64> {
    Map::new(
        |k: Seq<u8>| exists|i: int| starter_at(table, k, i),
        |k: Seq<u8>| (choose|i: int| starter_at(table, k, i)) as u64,
    )
}

/// The followers of a table without their marker, each with its id.
pub open spec fn followers(table: Seq<Seq<char>>) -> Map<Seq<u8>, u64> {
    Map::new(
        |k: Seq<u8>| exists|i: int| follower_at(table, k, i),
        |k: Seq<u8>| (choose|i: int| follower_at(table, k, i)) as u64,
    )
}

/// The id of the starter that reads `literal`, if there is one.
pub open spec fn role(table: Seq<Seq<char>>, literal: Seq<u8>) -> Option<u64> {
    if starters(table).contains_key(literal) {
        Some(starters(table)[literal])
    } else {
        None
    }
}

/// The ids of the special tokens.
pub open spec fn special_ids(table: Seq<Seq<char>>) -> Set<u64> {
    Set::new(|id: u64| id < table.len() && is_special_line(entry(table, id as int)))
}

/// Whether a table can be loaded: no entry stands in it twice, and it has
/// the unknown token.
pub open spec fn loadable(table: Seq<Seq<char>>) -> bool {
    distinct(table) && role(table, UNK_TOKEN.spec_bytes()) is Some
}

/// What segmentation consults of a table.
pub open spec fn lexicon(table: Seq<Seq<char>>) -> Lexicon {
    Lexicon {
        starters: starters(table),
        followers: followers(table),
        unk: role(table, UNK_TOKEN.spec_bytes()).unwrap(),
        prefix: role(table, PREFIX_TOKEN.spec_bytes()),
        suffix: role(table, SUFFIX_TOKEN.spec_bytes()),
    }
}

/// The byte that ends a line in a vocabulary file.
pub const LINE_END: u8 = 0x0a;

/// The first `n` lines of a table as the bytes of a file: each line and
/// the byte that ends it.
pub open spec fn file_bytes(table: Seq<Seq<char>>, n: int) -> Seq<u8>
    decreases n,
{
    if n <= 0 {
        Seq::empty()
    } else {
        file_bytes(table, n - 1) + entry(table, n - 1) + seq![LINE_END]
    }
}

/// Ids are places in the table.
pub proof fn lemma_ids_in_table(table: Seq<Seq<char>>, key: Seq<u8>)
    requires
        table.len() <= u64::MAX,
    ensures
        starters(table).contains_key(key) ==> starter_at(
            table,
            key,
            starters(table)[key] as int,
        ),
        followers(table).contains_key(key) ==> follower_at(
            table,
            key,
            followers(table)[key] as int,
        ),
{
    if starters(table).contains_key(key) {
        let i = choose|i: int| starter_at(table, key, i);
        assert(starter_at(table, key, i));
    }
    if followers(table).contains_key(key) {
        let i = choose|i: int| follower_at(table, key, i);
        assert(follower_at(table, key, i));
    }
}

/// Tells whether `t` begins with `p`.
pub fn bytes_begin_with(t: &[u8], p: &[u8]) -> (r: bool)
    ensures
        r == begins_with(t@, p@),
{
    if p.len() > t.len() {
        return false;
    }
    let mut i: usize = 0;
    while i < p.len()
        invariant
            i <= p.len() <= t.len(),
            forall|j: int| 0 <= j < i ==> t[j] == p[j],
        decreases p.len() - i,
    {
        if t[i] != p[i] {
            proof {
                assert(t@.take(p.len() as int)[i as int] != p@[i as int]);
            }
            return false;
        }
        i = i + 1;
    }
    proof {
        assert(t@.take(p.len() as int) =~= p@);
    }
    true
}

/// Tells whether `t` ends with `p`.
pub fn bytes_end_with(t: &[u8], p: &[u8]) -> (r: bool)
    ensures
        r == ends_with(t@, p@),
{
    if p.len() > t.len() {
        return false;
    }
    let d = t.len() - p.len();
    let mut i: usize = 0;
    while i < p.len()
        invariant
            i <= p.len() <= t.len(),
            d == t.len() - p.len(),
            forall|j: int| 0 <= j < i ==> t[d + j] == p[j],
        decreases p.len() - i,
    {
        if t[d + i] != p[i] {
            proof {
                assert(t@.skip(d as int)[i as int] != p@[i as int]);
            }
            return false;
        }
        i = i + 1;
    }
    proof {
        assert(t@.skip(d as int) =~= p@);
    }
    true
}

/// Tells whether two byte strings are the same.
pub fn bytes_equal(a: &[u8], b: &[u8]) -> (r: bool)
    ensures
        r == (a@ == b@),
{
    if a.len() != b.len() {
        return false;
    }
    let r = bytes_begin_with(a, b);
    proof {
        assert(a@.take(b.len() as int) =~= a@);
    }
    r
}

/// In a table without double entries a key has the id of the line that it
/// reads on.
pub proof fn lemma_starter_id(table: Seq<Seq<char>>, key: Seq<u8>, i: int)
    requires
        distinct(table),
        starter_at(table, key, i),
    ensures
        starters(table).contains_key(key),
        i <= u64::MAX ==> starters(table)[key] == i,
{
    let c = choose|j: int| starter_at(table, key, j);
    assert(starter_at(table, key, c));
}

/// In a table without double entries a follower's key has the id of the
/// line that it reads on.
pub proof fn lemma_follower_id(table: Seq<Seq<char>>, key: Seq<u8>, i: int)
    requires
        distinct(table),
        follower_at(table, key, i),
    ensures
        followers(table).contains_key(key),
        i <= u64::MAX ==> followers(table)[key] == i,
{
    let c = choose|j: int| follower_at(table, key, j);
    assert(follower_at(table, key, c));
}

/// The bytes of the reserved literals.
pub proof fn lemma_literals()
    ensures
        CONTINUATION_MARKER.spec_bytes() == seq![0x23u8, 0x23u8],
        UNUSED_MARKER.spec_bytes() == seq![0x5bu8, 0x75u8, 0x6eu8, 0x75u8, 0x73u8, 0x65u8, 0x64u8],
        SPECIAL_OPEN.spec_bytes() == seq![0x5bu8],
        SPECIAL_CLOSE.spec_bytes() == seq![0x5du8],
        UNK_TOKEN.spec_bytes() == seq![0x5bu8, 0x55u8, 0x4eu8, 0x4bu8, 0x5du8],
        PREFIX_TOKEN.spec_bytes() == seq![0x5bu8, 0x43u8, 0x4cu8, 0x53u8, 0x5du8],
        SUFFIX_TOKEN.spec_bytes() == seq![0x5bu8, 0x53u8, 0x45u8, 0x50u8, 0x5du8],
{
    reveal_strlit("##");
    reveal_strlit("[unused");
    reveal_strlit("[");
    reveal_strlit("]");
    reveal_strlit("[UNK]");
    reveal_strlit("[CLS]");
    reveal_strlit("[SEP]");
    is_ascii_chars_encode_utf8(CONTINUATION_MARKER@);
    is_ascii_chars_encode_utf8(UNUSED_MARKER@);
    is_ascii_chars_encode_utf8(SPECIAL_OPEN@);
    is_ascii_chars_encode_utf8(SPECIAL_CLOSE@);
    is_ascii_chars_encode_utf8(UNK_TOKEN@);
    is_ascii_chars_encode_utf8(PREFIX_TOKEN@);
    is_ascii_chars_encode_utf8(SUFFIX_TOKEN@);
    assert(CONTINUATION_MARKER.spec_bytes() =~= seq![0x23u8, 0x23u8]);
    assert(UNUSED_MARKER.spec_bytes() =~= seq![
        0x5bu8,
        0x75u8,
        0x6eu8,
        0x75u8,
        0x73u8,
        0x65u8,
        0x64u8,
    ]);
    assert(SPECIAL_OPEN.spec_bytes() =~= seq![0x5bu8]);
    assert(SPECIAL_CLOSE.spec_bytes() =~= seq![0x5du8]);
    assert(UNK_TOKEN.spec_bytes() =~= seq![0x5bu8, 0x55u8, 0x4eu8, 0x4bu8, 0x5du8]);
    assert(PREFIX_TOKEN.spec_bytes() =~= seq![0x5bu8, 0x43u8, 0x4cu8, 0x53u8, 0x5du8]);
    assert(SUFFIX_TOKEN.spec_bytes() =~= seq![0x5bu8, 0x53u8, 0x45u8, 0x50u8, 0x5du8]);
}

/// The three literals with a role are special tokens and starters.
pub proof fn lemma_roles_are_special()
    ensures
        is_special_line(UNK_TOKEN.spec_bytes()) && is_starter(UNK_TOKEN.spec_bytes()),
        is_special_line(PREFIX_TOKEN.spec_bytes()) && is_starter(PREFIX_TOKEN.spec_bytes()),
        is_special_line(SUFFIX_TOKEN.spec_bytes()) && is_starter(SUFFIX_TOKEN.spec_bytes()),
{
    lemma_literals();
    let unused = UNUSED_MARKER.spec_bytes();
    let marker = CONTINUATION_MARKER.spec_bytes();
    let open = SPECIAL_OPEN.spec_bytes();
    let close = SPECIAL_CLOSE.spec_bytes();
    let unk = UNK_TOKEN.spec_bytes();
    let cls = PREFIX_TOKEN.spec_bytes();
    let sep = SUFFIX_TOKEN.spec_bytes();
    assert(unk.take(1) =~= open && cls.take(1) =~= open && sep.take(1) =~= open);
    assert(unk.skip(4) =~= close && cls.skip(4) =~= close && sep.skip(4) =~= close);
    assert(unk.take(2)[0] != marker[0]);
    assert(cls.take(2)[0] != marker[0]);
    assert(sep.take(2)[0] != marker[0]);
}

} // verus!

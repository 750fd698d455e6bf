//! The natural order as integers -1, 0, 1: lexicographic order over
//! sequences, its instances for characters, key pieces, keys and paths, the
//! laws that make each of them a total preorder, and executable comparisons.

use crate::key::{chunks_view, key_of, keys_view, Chunk, Piece};
use vstd::prelude::*;

verus! {

/// Lexicographic order of two sequences under the element order `elem`; a
/// proper prefix comes first.
pub open spec fn lex<T>(a: Seq<T>, b: Seq<T>, elem: spec_fn(T, T) -> int) -> int
    decreases a.len(),
{
    if a.len() == 0 {
        if b.len() == 0 {
            0
        } else {
            -1
        }
    } else if b.len() == 0 {
        1
    } else if elem(a[0], b[0]) != 0 {
        elem(a[0], b[0])
    } else {
        lex(a.drop_first(), b.drop_first(), elem)
    }
}

/// `elem` is a total preorder given as -1, 0, 1: swapping the arguments
/// negates the answer, and "not after" is transitive.
pub open spec fn is_order<T>(elem: spec_fn(T, T) -> int) -> bool {
    &&& forall|x: T, y: T| #[trigger] elem(x, y) == -elem(y, x)
    &&& forall|x: T, y: T| -1 <= #[trigger] elem(x, y) <= 1
    &&& forall|x: T, y: T, z: T|
        #[trigger] elem(x, y) <= 0 && #[trigger] elem(y, z) <= 0 ==> elem(x, z) <= 0
}

pub open spec fn lex_order<T>(elem: spec_fn(T, T) -> int) -> spec_fn(Seq<T>, Seq<T>) -> int {
    |a: Seq<T>, b: Seq<T>| lex(a, b, elem)
}

pub proof fn lemma_lex_antisymmetric<T>(a: Seq<T>, b: Seq<T>, elem: spec_fn(T, T) -> int)
    requires
        is_order(elem),
    ensures
        lex(a, b, elem) == -lex(b, a, elem),
        -1 <= lex(a, b, elem) <= 1,
    decreases a.len(),
{
    if a.len() > 0 && b.len() > 0 && elem(a[0], b[0]) == 0 {
        assert(elem(b[0], a[0]) == 0);
        lemma_lex_antisymmetric(a.drop_first(), b.drop_first(), elem);
    }
}

pub proof fn lemma_lex_transitive<T>(a: Seq<T>, b: Seq<T>, c: Seq<T>, elem: spec_fn(T, T) -> int)
    requires
        is_order(elem),
        lex(a, b, elem) <= 0,
        lex(b, c, elem) <= 0,
    ensures
        lex(a, c, elem) <= 0,
    decreases a.len(),
{
    if a.len() > 0 && b.len() > 0 && c.len() > 0 {
        let e1 = elem(a[0], b[0]);
        let e2 = elem(b[0], c[0]);
        let e3 = elem(a[0], c[0]);
        assert(e3 <= 0);
        assert(elem(c[0], a[0]) == -e3);
        assert(elem(b[0], a[0]) == -e1);
        assert(elem(c[0], b[0]) == -e2);
        if e3 == 0 {
            if e1 < 0 {
                assert(elem(b[0], c[0]) <= 0 && elem(c[0], a[0]) <= 0);
                assert(elem(b[0], a[0]) <= 0);
            } else if e2 < 0 {
                assert(elem(c[0], a[0]) <= 0 && elem(a[0], b[0]) <= 0);
                assert(elem(c[0], b[0]) <= 0);
            } else {
                lemma_lex_transitive(a.drop_first(), b.drop_first(), c.drop_first(), elem);
            }
        }
    }
}

/// Lexicographic order over a total preorder is a total preorder.
pub proof fn lemma_lex_is_order<T>(elem: spec_fn(T, T) -> int)
    requires
        is_order(elem),
    ensures
        is_order(lex_order(elem)),
{
    let o = lex_order(elem);
    assert forall|x: Seq<T>, y: Seq<T>| #[trigger] o(x, y) == -o(y, x) by {
        lemma_lex_antisymmetric(x, y, elem);
    }
    assert forall|x: Seq<T>, y: Seq<T>| -1 <= #[trigger] o(x, y) <= 1 by {
        lemma_lex_antisymmetric(x, y, elem);
    }
    assert forall|x: Seq<T>, y: Seq<T>, z: Seq<T>|
        #[trigger] o(x, y) <= 0 && #[trigger] o(y, z) <= 0 implies o(x, z) <= 0 by {
        lemma_lex_transitive(x, y, z, elem);
    }
}

/// Skipping a common prefix whose elements tie does not change the order.
pub proof fn lemma_lex_skip<T>(a: Seq<T>, b: Seq<T>, i: int, elem: spec_fn(T, T) -> int)
    requires
        0 <= i < a.len(),
        i < b.len(),
    ensures
        lex(a.skip(i), b.skip(i), elem) == if elem(a[i], b[i]) != 0 {
            elem(a[i], b[i])
        } else {
            lex(a.skip(i + 1), b.skip(i + 1), elem)
        },
{
    assert(a.skip(i).drop_first() =~= a.skip(i + 1));
    assert(b.skip(i).drop_first() =~= b.skip(i + 1));
}

/// Code-point order of characters; on UTF-8 strings the lexicographic order
/// of characters is the byte order that `String`'s `Ord` uses.
pub open spec fn char_order(a: char, b: char) -> int {
    if a < b {
        -1
    } else if a == b {
        0
    } else {
        1
    }
}

pub open spec fn chars_order() -> spec_fn(char, char) -> int {
    |a: char, b: char| char_order(a, b)
}

/// Numbers by value, numbers before text, text by characters.
pub open spec fn piece_order(a: Piece, b: Piece) -> int {
    match (a, b) {
        (Piece::Number(x), Piece::Number(y)) => if x < y {
            -1
        } else if x == y {
            0
        } else {
            1
        },
        (Piece::Number(_), Piece::Text(_)) => -1,
        (Piece::Text(_), Piece::Number(_)) => 1,
        (Piece::Text(x), Piece::Text(y)) => lex(x, y, chars_order()),
    }
}

pub open spec fn pieces_order() -> spec_fn(Piece, Piece) -> int {
    |a: Piece, b: Piece| piece_order(a, b)
}

/// The order of two keys.
pub open spec fn key_order(a: Seq<Piece>, b: Seq<Piece>) -> int {
    lex(a, b, pieces_order())
}

pub open spec fn keys_order() -> spec_fn(Seq<Piece>, Seq<Piece>) -> int {
    |a: Seq<Piece>, b: Seq<Piece>| key_order(a, b)
}

/// The keys of the components of a path.
pub open spec fn path_key(parts: Seq<Seq<char>>) -> Seq<Seq<Piece>> {
    parts.map_values(|p: Seq<char>| key_of(p))
}

/// The natural order of two paths given by their components: component by
/// component, each by its key.
pub open spec fn path_order(a: Seq<Seq<char>>, b: Seq<Seq<char>>) -> int {
    lex(path_key(a), path_key(b), keys_order())
}

pub proof fn lemma_pieces_order_is_order()
    ensures
        is_order(pieces_order()),
{
    lemma_lex_is_order(chars_order());
    let t = lex_order(chars_order());
    let o = pieces_order();
    assert forall|x: Piece, y: Piece| #[trigger] o(x, y) == -o(y, x) by {
        if let (Piece::Text(p), Piece::Text(q)) = (x, y) {
            assert(t(p, q) == -t(q, p));
        }
    }
    assert forall|x: Piece, y: Piece| -1 <= #[trigger] o(x, y) <= 1 by {
        if let (Piece::Text(p), Piece::Text(q)) = (x, y) {
            assert(-1 <= t(p, q) <= 1);
        }
    }
    assert forall|x: Piece, y: Piece, z: Piece|
        #[trigger] o(x, y) <= 0 && #[trigger] o(y, z) <= 0 implies o(x, z) <= 0 by {
        if let (Piece::Text(p), Piece::Text(q), Piece::Text(r)) = (x, y, z) {
            assert(t(p, q) <= 0 && t(q, r) <= 0);
            assert(t(p, r) <= 0);
        }
    }
}

pub proof fn lemma_keys_order_is_order()
    ensures
        is_order(keys_order()),
{
    lemma_pieces_order_is_order();
    lemma_lex_is_order(pieces_order());
    let t = lex_order(pieces_order());
    let o = keys_order();
    assert forall|x: Seq<Piece>, y: Seq<Piece>| #[trigger] o(x, y) == t(x, y) by {}
}

pub proof fn lemma_path_order_is_order()
    ensures
        forall|a: Seq<Seq<char>>, b: Seq<Seq<char>>| #[trigger]
            path_order(a, b) == -path_order(b, a),
        forall|a: Seq<Seq<char>>, b: Seq<Seq<char>>| -1 <= #[trigger] path_order(a, b) <= 1,
        forall|a: Seq<Seq<char>>, b: Seq<Seq<char>>, c: Seq<Seq<char>>|
            #[trigger] path_order(a, b) <= 0 && #[trigger] path_order(b, c) <= 0 ==> path_order(
                a,
                c,
            ) <= 0,
{
    lemma_keys_order_is_order();
    assert forall|a: Seq<Seq<char>>, b: Seq<Seq<char>>| #[trigger]
        path_order(a, b) == -path_order(b, a) && -1 <= path_order(a, b) <= 1 by {
        lemma_lex_antisymmetric(path_key(a), path_key(b), keys_order());
    }
    assert forall|a: Seq<Seq<char>>, b: Seq<Seq<char>>, c: Seq<Seq<char>>|
        #[trigger] path_order(a, b) <= 0 && #[trigger] path_order(b, c) <= 0 implies path_order(
            a,
            c,
        ) <= 0 by {
        lemma_lex_transitive(path_key(a), path_key(b), path_key(c), keys_order());
    }
}

fn compare_chars(a: &Vec<char>, b: &Vec<char>) -> (r: i8)
    ensures
        r == lex(a@, b@, chars_order()),
{
    let mut i: usize = 0;
    assert(a@.skip(0) =~= a@);
    assert(b@.skip(0) =~= b@);
    while i < a.len() && i < b.len()
        invariant
            i <= a@.len(),
            i <= b@.len(),
            lex(a@, b@, chars_order()) == lex(a@.skip(i as int), b@.skip(i as int), chars_order()),
        decreases a@.len() - i,
    {
        proof {
            lemma_lex_skip(a@, b@, i as int, chars_order());
        }
        if a[i] < b[i] {
            return -1;
        }
        if a[i] > b[i] {
            return 1;
        }
        i = i + 1;
    }
    if i < a.len() {
        1
    } else if i < b.len() {
        -1
    } else {
        0
    }
}

fn compare_chunk(a: &Chunk, b: &Chunk) -> (r: i8)
    ensures
        r == piece_order(a@, b@),
{
    match (a, b) {
        (Chunk::Number(x), Chunk::Number(y)) => if *x < *y {
            -1
        } else if *x == *y {
            0
        } else {
            1
        },
        (Chunk::Number(_), Chunk::Text(_)) => -1,
        (Chunk::Text(_), Chunk::Number(_)) => 1,
        (Chunk::Text(x), Chunk::Text(y)) => compare_chars(x, y),
    }
}

/// Compares two keys.
pub fn compare_keys(a: &Vec<Chunk>, b: &Vec<Chunk>) -> (r: i8)
    ensures
        r == key_order(chunks_view(a@), chunks_view(b@)),
{
    let ghost sa = chunks_view(a@);
    let ghost sb = chunks_view(b@);
    let mut i: usize = 0;
    assert(sa.skip(0) =~= sa);
    assert(sb.skip(0) =~= sb);
    while i < a.len() && i < b.len()
        invariant
            sa == chunks_view(a@),
            sb == chunks_view(b@),
            i <= a@.len(),
            i <= b@.len(),
            key_order(sa, sb) == lex(sa.skip(i as int), sb.skip(i as int), pieces_order()),
        decreases a@.len() - i,
    {
        proof {
            lemma_lex_skip(sa, sb, i as int, pieces_order());
        }
        let c = compare_chunk(&a[i], &b[i]);
        if c != 0 {
            return c;
        }
        i = i + 1;
    }
    if i < a.len() {
        1
    } else if i < b.len() {
        -1
    } else {
        0
    }
}

/// Compares two paths given by the keys of their components.
pub fn compare_path_keys(a: &Vec<Vec<Chunk>>, b: &Vec<Vec<Chunk>>) -> (r: i8)
    ensures
        r == lex(keys_view(a@), keys_view(b@), keys_order()),
{
    let ghost sa = keys_view(a@);
    let ghost sb = keys_view(b@);
    let mut i: usize = 0;
    assert(sa.skip(0) =~= sa);
    assert(sb.skip(0) =~= sb);
    while i < a.len() && i < b.len()
        invariant
            sa == keys_view(a@),
            sb == keys_view(b@),
            i <= a@.len(),
            i <= b@.len(),
            lex(sa, sb, keys_order()) == lex(sa.skip(i as int), sb.skip(i as int), keys_order()),
        decreases a@.len() - i,
    {
        proof {
            lemma_lex_skip(sa, sb, i as int, keys_order());
        }
        let c = compare_keys(&a[i], &b[i]);
        if c != 0 {
            return c;
        }
        i = i + 1;
    }
    if i < a.len() {
        1
    } else if i < b.len() {
        -1
    } else {
        0
    }
}

} // verus!

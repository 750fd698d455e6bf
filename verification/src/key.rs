//! The natural-order key of a name: the name is cut into maximal runs of
//! ASCII digits and of other characters; a digit run that fits in `u128` is
//! compared by its value, every other run as lower-cased text.

use crate::text::{
    all_ascii, ascii_lower, decimal_value, is_digit, lemma_decimal_value_grows, to_lowercase,
    unicode_lower,
};
use vstd::prelude::*;

verus! {

/// Two characters are of one kind when both or neither are ASCII digits.
pub open spec fn same_kind(a: char, b: char) -> bool {
    is_digit(a) == is_digit(b)
}

/// The maximal runs of characters of one kind, in order.
pub open spec fn runs(s: Seq<char>) -> Seq<Seq<char>>
    decreases s.len(),
{
    if s.len() == 0 {
        seq![]
    } else {
        let prev = runs(s.drop_last());
        if s.len() > 1 && same_kind(s[s.len() - 2], s.last()) {
            prev.drop_last().push(prev.last().push(s.last()))
        } else {
            prev.push(seq![s.last()])
        }
    }
}

/// One piece of a key, as the order sees it.
pub enum Piece {
    Number(nat),
    Text(Seq<char>),
}

/// The lower-case form of a run: ASCII letters map to lower case, and a run
/// with other characters takes the Unicode lower-case mapping.
pub open spec fn text_lower(run: Seq<char>) -> Seq<char> {
    if all_ascii(run) {
        ascii_lower(run)
    } else {
        unicode_lower(run)
    }
}

/// A digit run that fits in `u128` becomes its value; any other run becomes
/// its lower-case form.
pub open spec fn piece_of(run: Seq<char>) -> Piece {
    if run.len() > 0 && is_digit(run[0]) && decimal_value(run) <= u128::MAX {
        Piece::Number(decimal_value(run))
    } else {
        Piece::Text(text_lower(run))
    }
}

/// The key of a name: one piece per run.
pub open spec fn key_of(s: Seq<char>) -> Seq<Piece> {
    runs(s).map_values(|r: Seq<char>| piece_of(r))
}

/// One piece of a key. The order of the variants is the rule "numbers before
/// text" when the prefixes are equal.
#[derive(Debug, PartialEq, Eq)]
pub enum Chunk {
    Number(u128),
    Text(Vec<char>),
}

impl View for Chunk {
    type V = Piece;

    open spec fn view(&self) -> Piece {
        match self {
            Chunk::Number(n) => Piece::Number(*n as nat),
            Chunk::Text(t) => Piece::Text(t@),
        }
    }
}

pub open spec fn chunks_view(v: Seq<Chunk>) -> Seq<Piece> {
    v.map_values(|c: Chunk| c@)
}

pub open spec fn keys_view(v: Seq<Vec<Chunk>>) -> Seq<Seq<Piece>> {
    v.map_values(|k: Vec<Chunk>| chunks_view(k@))
}

pub fn is_ascii_digit(c: char) -> (r: bool)
    ensures
        r == is_digit(c),
{
    '0' <= c && c <= '9'
}

fn chars_of(s: &str) -> (r: Vec<char>)
    ensures
        r@ == s@,
{
    let len = s.unicode_len();
    let mut out: Vec<char> = Vec::new();
    let mut i: usize = 0;
    while i < len
        invariant
            len == s@.len(),
            i <= len,
            out@ == s@.take(i as int),
        decreases len - i,
    {
        out.push(s.get_char(i));
        assert(s@.take(i as int).push(s@[i as int]) =~= s@.take(i + 1));
        i = i + 1;
    }
    assert(s@.take(len as int) =~= s@);
    out
}

/// The decimal value of the digit run `name[start..end]`, or `None` when it
/// does not fit in `u128`.
fn run_value(name: &str, start: usize, end: usize) -> (r: Option<u128>)
    requires
        start < end <= name@.len(),
        forall|k: int| start <= k < end ==> is_digit(#[trigger] name@[k]),
    ensures
        match r {
            Some(v) => v == decimal_value(name@.subrange(start as int, end as int)),
            None => decimal_value(name@.subrange(start as int, end as int)) > u128::MAX,
        },
{
    let ghost run = name@.subrange(start as int, end as int);
    let mut value: u128 = 0;
    let mut i: usize = start;
    assert(run.take(0) =~= Seq::<char>::empty());
    while i < end
        invariant
            start <= i <= end <= name@.len(),
            run == name@.subrange(start as int, end as int),
            forall|k: int| start <= k < end ==> is_digit(#[trigger] name@[k]),
            value == decimal_value(run.take(i - start)),
        decreases end - i,
    {
        let c = name.get_char(i);
        let d: u32 = c as u32 - '0' as u32;
        assert(run.take(i - start + 1).drop_last() =~= run.take(i - start));
        assert(run.take(i - start + 1).last() == c);
        match value.checked_mul(10) {
            Some(m) => match m.checked_add(d as u128) {
                Some(v) => {
                    value = v;
                },
                None => {
                    proof {
                        lemma_decimal_value_grows(run, i - start + 1);
                        assert(run.take(run.len() as int) =~= run);
                    }
                    return None;
                },
            },
            None => {
                proof {
                    lemma_decimal_value_grows(run, i - start + 1);
                }
                return None;
            },
        }
        i = i + 1;
    }
    assert(run.take(end - start) =~= run);
    Some(value)
}

/// The piece for the run `name[start..end]`, all of whose characters are of
/// one kind.
fn piece(name: &str, start: usize, end: usize, digits: bool) -> (r: Chunk)
    requires
        start < end <= name@.len(),
        forall|k: int| start <= k < end ==> is_digit(#[trigger] name@[k]) == digits,
    ensures
        r@ == piece_of(name@.subrange(start as int, end as int)),
{
    if digits {
        if let Some(v) = run_value(name, start, end) {
            return Chunk::Number(v);
        }
    }
    let head = name.substring_char(start, end);
    let lower = to_lowercase(head);
    Chunk::Text(chars_of(lower.as_str()))
}

/// The natural-order key of `name`.
pub fn key(name: &str) -> (r: Vec<Chunk>)
    ensures
        chunks_view(r@) == key_of(name@),
{
    let ghost s = name@;
    let len = name.unicode_len();
    let mut chunks: Vec<Chunk> = Vec::new();
    if len == 0 {
        assert(chunks_view(chunks@) =~= key_of(s));
        return chunks;
    }
    let mut start: usize = 0;
    let mut i: usize = 1;
    let mut digits = is_ascii_digit(name.get_char(0));
    assert(s.take(1).drop_last() =~= s.take(0));
    assert(s.take(0) =~= Seq::<char>::empty());
    assert(runs(s.take(0)) =~= Seq::<Seq<char>>::empty());
    assert(runs(s.take(1)) == runs(s.take(0)).push(seq![s[0]]));
    assert(seq![s[0]] =~= s.subrange(0, 1));
    assert(runs(s.take(0)).push(s.subrange(0, 1)) =~= seq![s.subrange(0, 1)]);
    while i < len
        invariant
            s == name@,
            len == s.len(),
            start < i <= len,
            digits == is_digit(s[start as int]),
            forall|k: int| start <= k < i ==> is_digit(#[trigger] s[k]) == digits,
            runs(s.take(i as int)) == runs(s.take(start as int)).push(
                s.subrange(start as int, i as int),
            ),
            chunks_view(chunks@) == runs(s.take(start as int)).map_values(
                |r: Seq<char>| piece_of(r),
            ),
        decreases len - i,
    {
        let c = name.get_char(i);
        let ghost t = s.take(i + 1);
        assert(t.drop_last() =~= s.take(i as int));
        assert(t.last() == c);
        assert(t[t.len() - 2] == s[i - 1]);
        if is_ascii_digit(c) != digits {
            let p = piece(name, start, i, digits);
            let ghost before = chunks@;
            chunks.push(p);
            proof {
                let old_runs = runs(s.take(start as int));
                let cur = s.subrange(start as int, i as int);
                assert(chunks_view(chunks@) =~= chunks_view(before).push(p@));
                assert(old_runs.push(cur).map_values(|r: Seq<char>| piece_of(r))
                    =~= old_runs.map_values(|r: Seq<char>| piece_of(r)).push(piece_of(cur)));
                assert(s.subrange(i as int, i + 1) =~= seq![c]);
            }
            start = i;
            digits = !digits;
        } else {
            proof {
                let old_runs = runs(s.take(start as int));
                let cur = s.subrange(start as int, i as int);
                assert(runs(s.take(i as int)).drop_last() =~= old_runs);
                assert(cur.push(c) =~= s.subrange(start as int, i + 1));
            }
        }
        i = i + 1;
    }
    let p = piece(name, start, len, digits);
    let ghost before = chunks@;
    chunks.push(p);
    proof {
        let old_runs = runs(s.take(start as int));
        let cur = s.subrange(start as int, len as int);
        assert(s.take(len as int) =~= s);
        assert(chunks_view(chunks@) =~= chunks_view(before).push(p@));
        assert(old_runs.push(cur).map_values(|r: Seq<char>| piece_of(r))
            =~= old_runs.map_values(|r: Seq<char>| piece_of(r)).push(piece_of(cur)));
    }
    chunks
}

} // verus!

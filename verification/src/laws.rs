//! What holds of every run and of the natural order as a whole.

use crate::key::{key_of, piece_of, runs, same_kind, text_lower, Piece};
use crate::order::{
    is_order, key_order, lemma_keys_order_is_order, lemma_lex_antisymmetric,
    lemma_pieces_order_is_order, lex, path_key, path_order, pieces_order, keys_order,
    chars_order, lemma_lex_is_order,
};
use crate::paths::{
    extension_of, is_output_name, join_of, normalized, single_component_of, starts_with_parts,
};
use crate::text::trimmed;
use crate::pipeline::{
    beside, counts_to, cover_settled, name_checked, numbers_from, page_name, placed,
    skipped_message, transition, warn, well_formed,
    JobView, ReplyView, RequestView, StageView, StepView,
};
use crate::error::ErrorView;
use crate::text::{all_ascii, ascii_lower, ascii_lower_char, decimal, decimal_value, digit_char, digit_value, is_digit};
use vstd::prelude::*;

verus! {

// ---------------------------------------------------------------------------
// The natural order

/// A run of characters of one kind is a single run.
pub proof fn lemma_uniform_is_one_run(s: Seq<char>)
    requires
        s.len() > 0,
        forall|i: int| 0 <= i < s.len() ==> same_kind(#[trigger] s[i], s[0]),
    ensures
        runs(s) == seq![s],
    decreases s.len(),
{
    if s.len() > 1 {
        let t = s.drop_last();
        assert forall|i: int| 0 <= i < t.len() implies same_kind(#[trigger] t[i], t[0]) by {
            assert(t[i] == s[i]);
        }
        lemma_uniform_is_one_run(t);
        assert(same_kind(s[s.len() - 2], s.last()));
        assert(runs(s) == runs(t).drop_last().push(runs(t).last().push(s.last())));
        assert(t.push(s.last()) =~= s);
        assert(runs(s) =~= seq![s]);
    } else {
        assert(s.drop_last() =~= Seq::<char>::empty());
        assert(runs(s.drop_last()) =~= Seq::<Seq<char>>::empty());
        assert(seq![s.last()] =~= s);
        assert(runs(s) =~= seq![s]);
    }
}

/// Every character of `s` is of one kind.
pub open spec fn uniform(s: Seq<char>) -> bool {
    forall|i: int| 0 <= i < s.len() ==> same_kind(#[trigger] s[i], s[0])
}

/// Law: the runs of a name split it: joined in order they give the name back,
/// none is empty, each holds characters of one kind, and neighbouring runs
/// are of different kinds.
pub proof fn law_runs_split_the_name(s: Seq<char>)
    ensures
        runs(s).flatten() == s,
        forall|i: int| 0 <= i < runs(s).len() ==> #[trigger] runs(s)[i].len() > 0,
        forall|i: int| 0 <= i < runs(s).len() ==> uniform(#[trigger] runs(s)[i]),
        forall|i: int|
            0 <= i < runs(s).len() - 1 ==> !same_kind(
                #[trigger] runs(s)[i].last(),
                runs(s)[i + 1][0],
            ),
    decreases s.len(),
{
    let r = runs(s);
    if s.len() == 0 {
        assert(r =~= Seq::<Seq<char>>::empty());
        assert(r.flatten() =~= s);
    } else {
        let t = s.drop_last();
        let c = s.last();
        let prev = runs(t);
        law_runs_split_the_name(t);
        prev.lemma_flatten_and_flatten_alt_are_equivalent();
        r.lemma_flatten_and_flatten_alt_are_equivalent();
        if s.len() > 1 && same_kind(s[s.len() - 2], c) {
            let last = prev.last().push(c);
            assert(prev.len() > 0);
            assert(prev.last().last() == t.last()) by {
                assert(prev.flatten_alt() == prev.drop_last().flatten_alt() + prev.last());
            }
            assert(r == prev.drop_last().push(last));
            assert(r.drop_last() =~= prev.drop_last());
            assert(r.last() == last);
            assert(prev.flatten_alt() == prev.drop_last().flatten_alt() + prev.last());
            assert(r.flatten_alt() == r.drop_last().flatten_alt() + r.last());
            assert(r.flatten_alt() =~= prev.flatten_alt().push(c));
            assert(t.push(c) =~= s);
            assert forall|i: int| 0 <= i < r.len() implies uniform(#[trigger] r[i]) by {
                if i == r.len() - 1 {
                    assert forall|k: int| 0 <= k < last.len() implies same_kind(#[trigger] last[k], last[0]) by {
                        if k < last.len() - 1 {
                            assert(uniform(prev.last()));
                        } else {
                            assert(uniform(prev.last()));
                            assert(prev.last()[prev.last().len() - 1] == t.last());
                        }
                    }
                } else {
                    assert(r[i] == prev[i]);
                }
            }
            assert forall|i: int| 0 <= i < r.len() - 1 implies !same_kind(
                #[trigger] r[i].last(),
                r[i + 1][0],
            ) by {
                assert(r[i] == prev[i]);
                if i + 1 < r.len() - 1 {
                    assert(r[i + 1] == prev[i + 1]);
                } else {
                    assert(r[i + 1][0] == prev.last()[0]);
                }
            }
            assert forall|i: int| 0 <= i < r.len() implies #[trigger] r[i].len() > 0 by {
                if i < r.len() - 1 {
                    assert(r[i] == prev[i]);
                }
            }
        } else {
            assert(r == prev.push(seq![c]));
            assert(r.drop_last() =~= prev);
            assert(r.flatten_alt() == r.drop_last().flatten_alt() + r.last());
            assert(r.flatten_alt() =~= prev.flatten_alt() + seq![c]);
            assert(t + seq![c] =~= s);
            assert forall|i: int| 0 <= i < r.len() implies uniform(#[trigger] r[i]) by {
                if i < r.len() - 1 {
                    assert(r[i] == prev[i]);
                }
            }
            assert forall|i: int| 0 <= i < r.len() - 1 implies !same_kind(
                #[trigger] r[i].last(),
                r[i + 1][0],
            ) by {
                assert(r[i] == prev[i]);
                if i + 1 < r.len() - 1 {
                    assert(r[i + 1] == prev[i + 1]);
                } else {
                    assert(prev.len() > 0);
                    assert(prev.flatten_alt() == prev.drop_last().flatten_alt() + prev.last());
                    assert(prev.last().last() == t.last());
                    assert(t.last() == s[s.len() - 2]);
                }
            }
            assert forall|i: int| 0 <= i < r.len() implies #[trigger] r[i].len() > 0 by {
                if i < r.len() - 1 {
                    assert(r[i] == prev[i]);
                }
            }
        }
    }
}

/// Lower-casing ASCII leaves the kind of a character alone.
proof fn lemma_lower_keeps_kind(c: char)
    ensures
        is_digit(ascii_lower_char(c)) == is_digit(c),
{
}

/// The runs of an ASCII-lower-cased name are the lower-cased runs.
proof fn lemma_runs_of_lower(s: Seq<char>)
    ensures
        runs(ascii_lower(s)) == runs(s).map_values(|r: Seq<char>| ascii_lower(r)),
    decreases s.len(),
{
    let l = ascii_lower(s);
    if s.len() == 0 {
        assert(runs(s).map_values(|r: Seq<char>| ascii_lower(r)) =~= Seq::<Seq<char>>::empty());
    } else {
        let t = s.drop_last();
        lemma_runs_of_lower(t);
        assert(l.drop_last() =~= ascii_lower(t));
        assert(l.last() == ascii_lower_char(s.last()));
        lemma_lower_keeps_kind(s.last());
        if s.len() > 1 {
            lemma_lower_keeps_kind(s[s.len() - 2]);
            assert(l[l.len() - 2] == ascii_lower_char(s[s.len() - 2]));
        }
        let prev = runs(t);
        let lp = prev.map_values(|r: Seq<char>| ascii_lower(r));
        if s.len() > 1 && same_kind(s[s.len() - 2], s.last()) {
            assert(prev.len() > 0) by {
                law_runs_split_the_name(t);
                prev.lemma_flatten_and_flatten_alt_are_equivalent();
            }
            assert(ascii_lower(prev.last().push(s.last())) =~= lp.last().push(l.last()));
            assert(runs(s).map_values(|r: Seq<char>| ascii_lower(r)) =~= lp.drop_last().push(
                lp.last().push(l.last()),
            ));
        } else {
            assert(ascii_lower(seq![s.last()]) =~= seq![l.last()]);
            assert(runs(s).map_values(|r: Seq<char>| ascii_lower(r)) =~= lp.push(seq![l.last()]));
        }
    }
}

/// Law: the case of ASCII letters does not matter to the key of an ASCII
/// name.
pub proof fn law_ascii_case_is_ignored(a: Seq<char>, b: Seq<char>)
    requires
        all_ascii(a),
        all_ascii(b),
        ascii_lower(a) == ascii_lower(b),
    ensures
        key_of(a) == key_of(b),
{
    lemma_key_of_lower(a);
    lemma_key_of_lower(b);
}

/// An ASCII name and its lower-cased form have the same key.
proof fn lemma_key_of_lower(s: Seq<char>)
    requires
        all_ascii(s),
    ensures
        key_of(s) == key_of(ascii_lower(s)),
{
    let rs = runs(s);
    lemma_runs_of_lower(s);
    law_runs_split_the_name(s);
    rs.lemma_flatten_and_flatten_alt_are_equivalent();
    let lr = rs.map_values(|r: Seq<char>| ascii_lower(r));
    assert forall|i: int| 0 <= i < rs.len() implies piece_of(#[trigger] lr[i]) == piece_of(rs[i]) by {
        let r = rs[i];
        assert(uniform(r));
        assert(r.len() > 0);
        assert(all_ascii(r)) by {
            crate::laws::lemma_run_is_part(s, i);
        }
        let lo = ascii_lower(r);
        lemma_lower_keeps_kind(r[0]);
        assert(all_ascii(lo)) by {
            assert forall|k: int| 0 <= k < lo.len() implies (#[trigger] lo[k] as int) < 128 by {
                assert(lo[k] == ascii_lower_char(r[k]));
            }
        }
        assert(ascii_lower(lo) =~= lo);
        if is_digit(r[0]) {
            assert(lo =~= r) by {
                assert forall|k: int| 0 <= k < r.len() implies lo[k] == r[k] by {
                    assert(same_kind(r[k], r[0]));
                }
            }
        }
    }
    assert(key_of(ascii_lower(s)) =~= key_of(s));
}

/// Every run of a name is made of characters of the name.
proof fn lemma_run_is_part(s: Seq<char>, i: int)
    requires
        0 <= i < runs(s).len(),
        all_ascii(s),
    ensures
        all_ascii(runs(s)[i]),
    decreases s.len(),
{
    let t = s.drop_last();
    let prev = runs(t);
    assert(all_ascii(t));
    if s.len() > 1 && same_kind(s[s.len() - 2], s.last()) {
        if i < runs(s).len() - 1 {
            assert(runs(s)[i] == prev[i]);
            lemma_run_is_part(t, i);
        } else {
            law_runs_split_the_name(t);
            prev.lemma_flatten_and_flatten_alt_are_equivalent();
            lemma_run_is_part(t, prev.len() - 1);
            let last = prev.last().push(s.last());
            assert forall|k: int| 0 <= k < last.len() implies (#[trigger] last[k] as int) < 128 by {
                if k == last.len() - 1 {
                    assert(last[k] == s[s.len() - 1]);
                }
            }
        }
    } else {
        if i < runs(s).len() - 1 {
            assert(runs(s)[i] == prev[i]);
            lemma_run_is_part(t, i);
        } else {
            assert(runs(s)[i] == seq![s.last()]);
            assert(s[s.len() - 1] == s.last());
        }
    }
}

/// A name made only of digits.
pub open spec fn all_digits(s: Seq<char>) -> bool {
    s.len() > 0 && forall|i: int| 0 <= i < s.len() ==> is_digit(#[trigger] s[i])
}

/// Law: a name made only of digits is keyed by its value when that fits in
/// `u128`, and as the text itself when it does not.
pub proof fn law_digit_names_are_numbers(s: Seq<char>)
    requires
        all_digits(s),
    ensures
        decimal_value(s) <= u128::MAX ==> key_of(s) == seq![Piece::Number(decimal_value(s))],
        decimal_value(s) > u128::MAX ==> key_of(s) == seq![Piece::Text(s)],
{
    assert forall|i: int| 0 <= i < s.len() implies same_kind(#[trigger] s[i], s[0]) by {}
    lemma_uniform_is_one_run(s);
    assert(key_of(s) =~= seq![piece_of(s)]);
    assert(all_ascii(s));
    assert(ascii_lower(s) =~= s);
}

/// Law: numbers in names compare by value, so `10` comes after `9` and `p1`,
/// `p01`, `p001` tie.
pub proof fn law_numbers_compare_by_value(a: Seq<char>, b: Seq<char>)
    requires
        all_digits(a),
        all_digits(b),
        decimal_value(a) <= u128::MAX,
        decimal_value(b) <= u128::MAX,
    ensures
        (decimal_value(a) < decimal_value(b)) == (path_order(seq![a], seq![b]) < 0),
        (decimal_value(a) == decimal_value(b)) == (path_order(seq![a], seq![b]) == 0),
{
    law_digit_names_are_numbers(a);
    law_digit_names_are_numbers(b);
    law_flat_paths_compare_by_name(a, b);
    let ka = key_of(a);
    let kb = key_of(b);
    assert(ka.drop_first() =~= Seq::<Piece>::empty());
    assert(kb.drop_first() =~= Seq::<Piece>::empty());
    assert(pieces_order()(ka[0], kb[0]) == crate::order::piece_order(ka[0], kb[0]));
    assert(lex(ka.drop_first(), kb.drop_first(), pieces_order()) == 0);
}

/// A digit run after a name that does not end in a digit is a run of its
/// own.
pub proof fn lemma_runs_of_prefix_and_digits(p: Seq<char>, a: Seq<char>)
    requires
        p.len() == 0 || !is_digit(p.last()),
        all_digits(a),
    ensures
        runs(p + a) == runs(p).push(a),
    decreases a.len(),
{
    let s = p + a;
    if a.len() == 1 {
        assert(s.drop_last() =~= p);
        assert(seq![s.last()] =~= a);
        if p.len() == 0 {
            assert(runs(p) =~= Seq::<Seq<char>>::empty());
        } else {
            assert(s[s.len() - 2] == p.last());
        }
    } else {
        let a1 = a.drop_last();
        assert(all_digits(a1)) by {
            assert forall|i: int| 0 <= i < a1.len() implies is_digit(#[trigger] a1[i]) by {
                assert(a1[i] == a[i]);
            }
        }
        lemma_runs_of_prefix_and_digits(p, a1);
        assert(s.drop_last() =~= p + a1);
        assert(s[s.len() - 2] == a[a.len() - 2]);
        assert(same_kind(s[s.len() - 2], s.last()));
        assert(a1.push(a.last()) =~= a);
        assert(runs(p).push(a1).drop_last() =~= runs(p));
    }
}

/// The key of a name that ends in a number: the key of the text before it,
/// then the number.
pub proof fn lemma_key_of_prefix_and_number(p: Seq<char>, a: Seq<char>)
    requires
        p.len() == 0 || !is_digit(p.last()),
        all_digits(a),
        decimal_value(a) <= u128::MAX,
    ensures
        key_of(p + a) == key_of(p).push(Piece::Number(decimal_value(a))),
{
    lemma_runs_of_prefix_and_digits(p, a);
    assert(runs(p).push(a).map_values(|r: Seq<char>| piece_of(r)) =~= runs(p).map_values(
        |r: Seq<char>| piece_of(r),
    ).push(piece_of(a)));
}

/// Law: after a common text prefix, numbers in names compare by value, so
/// `p9` comes before `p10`, and `p1` and `p01` tie.
pub proof fn law_numbers_after_a_prefix_compare_by_value(p: Seq<char>, a: Seq<char>, b: Seq<char>)
    requires
        p.len() == 0 || !is_digit(p.last()),
        all_digits(a),
        all_digits(b),
        decimal_value(a) <= u128::MAX,
        decimal_value(b) <= u128::MAX,
    ensures
        (decimal_value(a) < decimal_value(b)) == (path_order(seq![p + a], seq![p + b]) < 0),
        (decimal_value(a) == decimal_value(b)) == (path_order(seq![p + a], seq![p + b]) == 0),
{
    lemma_key_of_prefix_and_number(p, a);
    lemma_key_of_prefix_and_number(p, b);
    law_flat_paths_compare_by_name(p + a, p + b);
    lemma_pieces_order_is_order();
    let na = seq![Piece::Number(decimal_value(a))];
    let nb = seq![Piece::Number(decimal_value(b))];
    assert(key_of(p).push(na[0]) =~= key_of(p) + na);
    assert(key_of(p).push(nb[0]) =~= key_of(p) + nb);
    lemma_lex_common_prefix(key_of(p), na, nb, pieces_order());
    assert(na.drop_first() =~= Seq::<Piece>::empty());
    assert(nb.drop_first() =~= Seq::<Piece>::empty());
    assert(pieces_order()(na[0], nb[0]) == crate::order::piece_order(na[0], nb[0]));
    assert(lex(na.drop_first(), nb.drop_first(), pieces_order()) == 0);
}

/// The decimal digits of a number are digits, and read back to it.
pub proof fn lemma_decimal_reads_back(n: nat)
    ensures
        all_digits(decimal(n)),
        decimal_value(decimal(n)) == n,
    decreases n,
{
    let d = decimal(n);
    assert((digit_char((n % 10) as nat) as int) == 48 + n % 10);
    if n < 10 {
        assert(d[0] == digit_char(n));
        assert(d.drop_last() =~= Seq::<char>::empty());
        assert(decimal_value(d.drop_last()) == 0);
        assert(digit_value(d.last()) == n);
    } else {
        lemma_decimal_reads_back(n / 10);
        let e = decimal(n / 10);
        assert(d == e.push(digit_char(n % 10)));
        assert(d.drop_last() =~= e);
        assert(digit_value(d.last()) == n % 10);
        assert(decimal_value(d) == decimal_value(e) * 10 + n % 10);
        assert((n / 10) * 10 + n % 10 == n);
        assert forall|i: int| 0 <= i < d.len() implies is_digit(#[trigger] d[i]) by {
            if i < e.len() {
                assert(d[i] == e[i]);
            }
        }
    }
}

/// Law: for a name `p` that does not end in a digit, `p` followed by the
/// decimal digits of `m` comes before `p` followed by those of `n` exactly
/// when `m < n` (both fitting in `u128`).
pub proof fn law_numbered_names_follow_their_numbers(p: Seq<char>, m: nat, n: nat)
    requires
        p.len() == 0 || !is_digit(p.last()),
        m <= u128::MAX,
        n <= u128::MAX,
    ensures
        (m < n) == (path_order(seq![p + decimal(m)], seq![p + decimal(n)]) < 0),
        (m == n) == (path_order(seq![p + decimal(m)], seq![p + decimal(n)]) == 0),
{
    lemma_decimal_reads_back(m);
    lemma_decimal_reads_back(n);
    law_numbers_after_a_prefix_compare_by_value(p, decimal(m), decimal(n));
}

/// Character sequences with a common start compare by the first place
/// where they differ, by code point; a proper prefix comes first.
pub proof fn lemma_text_order_by_code_points(x: Seq<char>, y: Seq<char>, i: int)
    requires
        0 <= i <= x.len(),
        i <= y.len(),
        x.take(i) == y.take(i),
        (i < x.len() && i < y.len() && x[i] < y[i]) || (i == x.len() && i < y.len()),
    ensures
        lex(x, y, chars_order()) == -1,
{
    lemma_lex_is_order(chars_order());
    lemma_lex_common_prefix(x.take(i), x.skip(i), y.skip(i), chars_order());
    assert(x.take(i) + x.skip(i) =~= x);
    assert(y.take(i) + y.skip(i) =~= y);
    assert(x.take(i) == y.take(i));
    if i < x.len() {
        assert(x.skip(i)[0] == x[i]);
        assert(y.skip(i)[0] == y[i]);
    }
}

/// A name with no ASCII digit is one run, keyed by its lower-case text.
pub proof fn lemma_text_name_key(a: Seq<char>)
    requires
        a.len() > 0,
        forall|i: int| 0 <= i < a.len() ==> !is_digit(#[trigger] a[i]),
    ensures
        key_of(a) == seq![Piece::Text(text_lower(a))],
{
    assert forall|i: int| 0 <= i < a.len() implies same_kind(#[trigger] a[i], a[0]) by {}
    lemma_uniform_is_one_run(a);
    assert(key_of(a) =~= seq![piece_of(a)]);
}

/// Law: names without digits compare by their lower-case text, character
/// by character in code-point order, for every script: where the
/// lower-cased names first differ, the one with the smaller character comes
/// first (`том а.zip` before `том б.zip`), and a name whose lower-case text
/// is a proper prefix of the other's comes first.
pub proof fn law_text_names_compare_by_their_characters(a: Seq<char>, b: Seq<char>, i: int)
    requires
        a.len() > 0,
        b.len() > 0,
        forall|k: int| 0 <= k < a.len() ==> !is_digit(#[trigger] a[k]),
        forall|k: int| 0 <= k < b.len() ==> !is_digit(#[trigger] b[k]),
        0 <= i <= text_lower(a).len(),
        i <= text_lower(b).len(),
        text_lower(a).take(i) == text_lower(b).take(i),
        (i < text_lower(a).len() && i < text_lower(b).len() && text_lower(a)[i] < text_lower(b)[i])
            || (i == text_lower(a).len() && i < text_lower(b).len()),
    ensures
        path_order(seq![a], seq![b]) < 0,
        path_order(seq![b], seq![a]) > 0,
{
    lemma_text_name_key(a);
    lemma_text_name_key(b);
    law_flat_paths_compare_by_name(a, b);
    lemma_text_order_by_code_points(text_lower(a), text_lower(b), i);
    let ka = key_of(a);
    let kb = key_of(b);
    assert(ka.drop_first() =~= Seq::<Piece>::empty());
    assert(kb.drop_first() =~= Seq::<Piece>::empty());
    assert(pieces_order()(ka[0], kb[0]) == crate::order::piece_order(ka[0], kb[0]));
    crate::order::lemma_path_order_is_order();
}

/// Law: paths of one component compare by the keys of their names.
pub proof fn law_flat_paths_compare_by_name(a: Seq<char>, b: Seq<char>)
    ensures
        path_order(seq![a], seq![b]) == key_order(key_of(a), key_of(b)),
{
    let pa = path_key(seq![a]);
    let pb = path_key(seq![b]);
    assert(pa =~= seq![key_of(a)]);
    assert(pb =~= seq![key_of(b)]);
    assert(pa.drop_first() =~= Seq::<Seq<Piece>>::empty());
    assert(pb.drop_first() =~= Seq::<Seq<Piece>>::empty());
    assert(keys_order()(pa[0], pb[0]) == key_order(key_of(a), key_of(b)));
    assert(lex(pa.drop_first(), pb.drop_first(), keys_order()) == 0);
}

/// Equal prefixes tie, so the order is decided after them.
pub proof fn lemma_lex_common_prefix<T>(
    pre: Seq<T>,
    a: Seq<T>,
    b: Seq<T>,
    elem: spec_fn(T, T) -> int,
)
    requires
        is_order(elem),
    ensures
        lex(pre + a, pre + b, elem) == lex(a, b, elem),
    decreases pre.len(),
{
    if pre.len() > 0 {
        assert(elem(pre[0], pre[0]) == -elem(pre[0], pre[0]));
        assert((pre + a).drop_first() =~= pre.drop_first() + a);
        assert((pre + b).drop_first() =~= pre.drop_first() + b);
        lemma_lex_common_prefix(pre.drop_first(), a, b, elem);
    } else {
        assert(pre + a =~= a);
        assert(pre + b =~= b);
    }
}

/// Law: where two keys agree up to a point and then one has a number and the
/// other text, the number comes first.
pub proof fn law_numbers_before_text(
    pre: Seq<Piece>,
    n: nat,
    t: Seq<char>,
    rest_a: Seq<Piece>,
    rest_b: Seq<Piece>,
)
    ensures
        key_order(pre + seq![Piece::Number(n)] + rest_a, pre + seq![Piece::Text(t)] + rest_b) == -1,
{
    lemma_pieces_order_is_order();
    let a = seq![Piece::Number(n)] + rest_a;
    let b = seq![Piece::Text(t)] + rest_b;
    assert(pre + seq![Piece::Number(n)] + rest_a =~= pre + a);
    assert(pre + seq![Piece::Text(t)] + rest_b =~= pre + b);
    lemma_lex_common_prefix(pre, a, b, pieces_order());
}

/// Law: the natural order of paths is a total preorder: swapping the paths
/// negates the answer, and "not after" is transitive, so a sort by it is
/// well defined.
pub proof fn law_natural_order_is_total(a: Seq<Seq<char>>, b: Seq<Seq<char>>, c: Seq<Seq<char>>)
    ensures
        path_order(a, b) == -path_order(b, a),
        -1 <= path_order(a, b) <= 1,
        path_order(a, a) == 0,
        path_order(a, b) <= 0 && path_order(b, c) <= 0 ==> path_order(a, c) <= 0,
{
    crate::order::lemma_path_order_is_order();
}

// ---------------------------------------------------------------------------
// Runs of the pipeline

/// Law: the pages that a run hands out are numbered 1, 2, 3, ... in the
/// order of the steps, without gaps or repeats; a step only adds numbers.
pub proof fn law_pages_are_numbered_in_order(
    job: JobView,
    stage: StageView,
    numbered: Seq<nat>,
    reply: ReplyView,
    ns: StageView,
    nn: Seq<nat>,
    step: StepView,
)
    requires
        well_formed(stage, numbered),
        transition(job, stage, numbered, reply, ns, nn, step),
    ensures
        numbered.is_prefix_of(nn),
        forall|i: int| 0 <= i < nn.len() ==> #[trigger] nn[i] == i + 1,
{
    match (stage, reply) {
        (StageView::Chapter { run, .. }, ReplyView::Files(files)) => {
            if let RequestView::MovePages { moves } = step.request {
                let m = moves.len();
                assert forall|i: int| 0 <= i < nn.len() implies #[trigger] nn[i] == i + 1 by {
                    if i >= numbered.len() {
                        assert(nn[i] == numbers_from(placed(run) + 1, m)[i - numbered.len()]);
                    }
                }
            }
        },
        (StageView::OutputCreate { cover, .. }, ReplyView::Done) => {
            if cover is Some {
                assert(nn == seq![1nat]);
            }
        },
        _ => {},
    }
}

/// Law: each page moved in is named after the number it is handed, followed
/// by the extension of the file it comes from; the cover is page 1.
pub proof fn law_targets_carry_their_numbers(
    job: JobView,
    stage: StageView,
    numbered: Seq<nat>,
    reply: ReplyView,
    ns: StageView,
    nn: Seq<nat>,
    step: StepView,
)
    requires
        well_formed(stage, numbered),
        transition(job, stage, numbered, reply, ns, nn, step),
    ensures
        step.request matches RequestView::MovePages { moves } ==> forall|k: int|
            0 <= k < moves.len() ==> (#[trigger] moves[k]).1.last() == page_name(
                nn[numbered.len() + k],
                extension_of(moves[k].0),
            ),
        step.request matches RequestView::CopyCover { from, to } ==> {
            &&& numbered.len() == 0
            &&& nn == seq![1nat]
            &&& to.last() == page_name(1, extension_of(from))
        },
{
    law_pages_are_numbered_in_order(job, stage, numbered, reply, ns, nn, step);
    if let RequestView::MovePages { moves } = step.request {
        assert forall|k: int| 0 <= k < moves.len() implies (#[trigger] moves[k]).1.last()
            == page_name(nn[numbered.len() + k], extension_of(moves[k].0)) by {
            assert(nn[numbered.len() + k] == numbered.len() + k + 1);
        }
    }
}

/// Law: a finished run reports every page it handed out, cover included,
/// and at least one page from the chapters.
pub proof fn law_finish_counts_every_page(
    job: JobView,
    stage: StageView,
    numbered: Seq<nat>,
    reply: ReplyView,
    ns: StageView,
    nn: Seq<nat>,
    step: StepView,
)
    requires
        well_formed(stage, numbered),
        transition(job, stage, numbered, reply, ns, nn, step),
    ensures
        step.request matches RequestView::Finish { images, .. } ==> images == nn.len() && nn.len()
            >= 1,
{
}

/// Law: the output folder, which is cleared before assembly, is never the
/// source or a folder above it, neither as written nor as read lexically
/// (`.` dropped, `..` resolved).
pub proof fn law_output_never_holds_the_source(
    job: JobView,
    stage: StageView,
    numbered: Seq<nat>,
    reply: ReplyView,
    ns: StageView,
    nn: Seq<nat>,
    step: StepView,
)
    requires
        transition(job, stage, numbered, reply, ns, nn, step),
    ensures
        ns matches StageView::Workspace { source, output, .. } ==> {
            &&& !starts_with_parts(source, output)
            &&& !starts_with_parts(normalized(source), normalized(output))
        },
{
}

/// Law: once source and cover are settled, an output name that, trimmed, is
/// empty or holds a path separator is refused before anything on disk is
/// touched; only an acceptable name leads on to the output.
pub proof fn law_output_name_is_checked_first(
    job: JobView,
    stage: StageView,
    numbered: Seq<nat>,
    reply: ReplyView,
    ns: StageView,
    nn: Seq<nat>,
    step: StepView,
)
    requires
        stage is Source || stage is Cover,
        transition(job, stage, numbered, reply, ns, nn, step),
    ensures
        ns is Destination || ns is Workspace ==> is_output_name(trimmed(job.output_name)),
        !is_output_name(trimmed(job.output_name)) && !(ns is Cover) ==> ns == StageView::Over
            && step.request is Fail,
{
}

/// Law: an acceptable output name is used as it is, trimmed: it is the
/// folder made in the destination, or beside the source. (A name that the
/// platform reads as more than one component, such as `A:B` on Windows, is
/// refused.)
pub proof fn law_output_name_is_used_as_given(
    job: JobView,
    stage: StageView,
    numbered: Seq<nat>,
    reply: ReplyView,
    ns: StageView,
    nn: Seq<nat>,
    step: StepView,
)
    requires
        stage is Source || stage is Cover,
        transition(job, stage, numbered, reply, ns, nn, step),
        is_output_name(trimmed(job.output_name)),
    ensures
        ns matches StageView::Destination { name, .. } ==> name == trimmed(job.output_name),
        ns matches StageView::Workspace { source, output, .. } ==> output == join_of(
            beside(source),
            trimmed(job.output_name),
        ),
{
    let name = trimmed(job.output_name);
    if ns is Destination || ns is Workspace {
        let (source, is_dir, cover) = match (stage, reply) {
            (StageView::Source, ReplyView::Source { absolute, is_dir, .. }) => (absolute, is_dir, None),
            (StageView::Cover { source, is_dir }, ReplyView::Cover { absolute, .. }) => (
                source,
                is_dir,
                Some(absolute),
            ),
            _ => (seq![], false, None),
        };
        assert(cover_settled(job, source, is_dir, cover, ns, step));
        let part = choose|part: Option<Seq<char>>|
            #[trigger] single_component_of(name, part) && name_checked(
                job,
                source,
                is_dir,
                cover,
                part,
                ns,
                step,
            );
        assert(part == Some(name));
    }
}

/// Law: a cancel is honoured before every chapter, not only the first: at
/// any chapter position, the answer that the run was cancelled ends it with
/// the failure `Cancelled`, reports nothing, and hands out no page number.
pub proof fn law_cancel_stops_before_any_chapter(
    job: JobView,
    stage: StageView,
    numbered: Seq<nat>,
    ns: StageView,
    nn: Seq<nat>,
    step: StepView,
)
    requires
        stage is Cancel,
        transition(job, stage, numbered, ReplyView::Cancelled(true), ns, nn, step),
    ensures
        ns == StageView::Over,
        step.request == RequestView::Fail(ErrorView::Cancelled),
        step.events.len() == 0,
        nn == numbered,
{
}

/// Law: a run that was not cancelled goes on to unpack the chapter at its
/// position.
pub proof fn law_uncancelled_run_unpacks_the_next_chapter(
    job: JobView,
    stage: StageView,
    numbered: Seq<nat>,
    ns: StageView,
    nn: Seq<nat>,
    step: StepView,
)
    requires
        transition(job, stage, numbered, ReplyView::Cancelled(false), ns, nn, step),
    ensures
        stage matches StageView::Cancel { run, position } ==> {
            &&& ns == StageView::Chapter { run, position }
            &&& step.request == RequestView::UnpackChapter {
                archive: run.chapters[position as int],
            }
            &&& nn == numbered
        },
{
}

/// Law: a non-empty destination is always where the output goes, with or
/// without a cover: once source and cover are settled, the run either fails
/// or asks to make that destination absolute; it never settles the output
/// beside the source.
pub proof fn law_a_given_destination_is_always_used(
    job: JobView,
    stage: StageView,
    numbered: Seq<nat>,
    reply: ReplyView,
    ns: StageView,
    nn: Seq<nat>,
    step: StepView,
)
    requires
        stage is Source || stage is Cover,
        job.destination matches Some(d) && d.len() > 0,
        transition(job, stage, numbered, reply, ns, nn, step),
    ensures
        !(ns is Workspace),
        ns is Over || ns is Cover || {
            &&& ns is Destination
            &&& step.request == RequestView::Absolutize { path: job.destination->0 }
        },
        ns matches StageView::Destination { name, .. } ==> (is_output_name(
            trimmed(job.output_name),
        ) ==> name == trimmed(job.output_name)),
{
    let name = trimmed(job.output_name);
    match (stage, reply) {
        (StageView::Source, ReplyView::Source { absolute, exists, is_dir }) => {
            if exists && (is_dir || crate::paths::has_extension_in(
                absolute,
                crate::paths::archive_extensions(),
            )) && !crate::pipeline::cover_given(job) && is_output_name(name) {
                assert(cover_settled(job, absolute, is_dir, None, ns, step));
                let part = choose|part: Option<Seq<char>>|
                    #[trigger] single_component_of(name, part) && name_checked(
                        job,
                        absolute,
                        is_dir,
                        None,
                        part,
                        ns,
                        step,
                    );
                assert(name_checked(job, absolute, is_dir, None, part, ns, step));
            }
        },
        (StageView::Cover { source, is_dir }, ReplyView::Cover { absolute, is_file }) => {
            if is_file && crate::paths::has_extension_in(absolute, crate::paths::image_extensions())
                && is_output_name(name) {
                assert(cover_settled(job, source, is_dir, Some(absolute), ns, step));
                let part = choose|part: Option<Seq<char>>|
                    #[trigger] single_component_of(name, part) && name_checked(
                        job,
                        source,
                        is_dir,
                        Some(absolute),
                        part,
                        ns,
                        step,
                    );
                assert(name_checked(job, source, is_dir, Some(absolute), part, ns, step));
            }
        },
        _ => {},
    }
}

/// Law: the output lies in the destination: from the destination stage, a
/// settled output is the absolute destination joined with the name.
pub proof fn law_output_is_the_destination_joined_with_the_name(
    job: JobView,
    stage: StageView,
    numbered: Seq<nat>,
    d: Seq<Seq<char>>,
    ns: StageView,
    nn: Seq<nat>,
    step: StepView,
)
    requires
        transition(job, stage, numbered, ReplyView::Absolute(d), ns, nn, step),
    ensures
        stage matches StageView::Destination { source, name, .. } ==> {
            &&& ns is Over || ns is Workspace
            &&& ns matches StageView::Workspace { source: s, output, .. } ==> s == source
                && output == join_of(d, name)
        },
{
}

/// Law: an output folder that already exists is cleared before assembly, and
/// one that does not is only created, whatever the chapters and the cover:
/// the create request clears exactly when the folder existed, and a warning
/// says so.
pub proof fn law_existing_output_is_cleared(
    job: JobView,
    stage: StageView,
    numbered: Seq<nat>,
    existed: bool,
    ns: StageView,
    nn: Seq<nat>,
    step: StepView,
)
    requires
        stage is OutputCheck,
        transition(job, stage, numbered, ReplyView::Exists(existed), ns, nn, step),
    ensures
        step.request matches RequestView::CreateOutput { output, clear } && clear == existed
            && output == stage->OutputCheck_output,
        step.events.len() == (if existed { 1int } else { 0int }),
        ns is OutputCreate,
        nn == numbered,
{
}

/// Law: a chapter archive that cannot be read is skipped with a warning; the
/// run goes on, or ends as it would have without that chapter.
pub proof fn law_broken_chapter_is_skipped(
    job: JobView,
    stage: StageView,
    numbered: Seq<nat>,
    message: Seq<char>,
    ns: StageView,
    nn: Seq<nat>,
    step: StepView,
)
    requires
        stage is Chapter,
        well_formed(stage, numbered),
        transition(job, stage, numbered, ReplyView::BrokenArchive(message), ns, nn, step),
    ensures
        nn == numbered,
        step.events.len() >= 2,
        step.events[0] == warn(skipped_message(crate::paths::shown_name(stage->Chapter_run.chapters[stage->Chapter_position as int]))),
        step.request is CheckCancelled || step.request is Finish || step.request == RequestView::Fail(
            ErrorView::NoImages,
        ),
{
}

/// Law: a cover alone is no book: a run whose chapters held no image fails,
/// even with a cover.
pub proof fn law_cover_alone_is_no_book(
    job: JobView,
    stage: StageView,
    numbered: Seq<nat>,
    reply: ReplyView,
    ns: StageView,
    nn: Seq<nat>,
    step: StepView,
)
    requires
        transition(job, stage, numbered, reply, ns, nn, step),
        step.request is Finish,
    ensures
        match stage {
            StageView::Moves { run, count, .. } => run.pages + count > 0,
            StageView::Chapter { run, .. } => run.pages > 0,
            _ => false,
        },
{
}

} // verus!

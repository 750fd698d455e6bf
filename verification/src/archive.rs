//! Picking the chapter archives and the page images out of a listing of
//! files, in natural order.

use crate::key::{keys_view, Chunk};
use crate::order::{compare_path_keys, lemma_path_order_is_order, path_key, path_order};
use crate::paths::{
    archive_extensions, has_extension_in, image_extensions, is_image, is_zip, path_keys,
    PathParts,
};
use vstd::prelude::*;

verus! {

pub open spec fn paths_view(v: Seq<PathParts>) -> Seq<Seq<Seq<char>>> {
    v.map_values(|p: PathParts| p@)
}

/// `p` lists each index below `n` once.
pub open spec fn is_permutation(p: Seq<int>, n: nat) -> bool {
    &&& p.len() == n
    &&& forall|k: int| 0 <= k < p.len() ==> 0 <= #[trigger] p[k] < n
    &&& forall|k: int, l: int| 0 <= k < l < p.len() ==> #[trigger] p[k] != #[trigger] p[l]
}

/// No path comes after a later one.
pub open spec fn in_natural_order(s: Seq<Seq<Seq<char>>>) -> bool {
    forall|k: int, l: int| 0 <= k < l < s.len() ==> path_order(#[trigger] s[k], #[trigger] s[l]) <= 0
}

/// `out` is `input` sorted in natural order, with paths that the order
/// cannot tell apart kept in their input order (what a stable sort gives).
pub open spec fn is_stable_sort_of(out: Seq<Seq<Seq<char>>>, input: Seq<Seq<Seq<char>>>) -> bool {
    exists|p: Seq<int>|
        {
            &&& is_permutation(p, input.len())
            &&& out.len() == input.len()
            &&& forall|k: int| 0 <= k < out.len() ==> #[trigger] out[k] == input[p[k]]
            &&& in_natural_order(out)
            &&& forall|k: int, l: int|
                0 <= k < l < out.len() && path_order(#[trigger] out[k], #[trigger] out[l]) == 0
                    ==> p[k] < p[l]
        }
}

/// The first `sv.len()` paths of `input`, placed by `p`, in natural order and
/// stable.
pub open spec fn sorted_prefix(sv: Seq<Seq<Seq<char>>>, p: Seq<int>, input: Seq<Seq<Seq<char>>>) -> bool {
    &&& p.len() == sv.len()
    &&& sv.len() <= input.len()
    &&& forall|k: int| 0 <= k < p.len() ==> 0 <= #[trigger] p[k] < sv.len()
    &&& forall|k: int, l: int| 0 <= k < l < p.len() ==> #[trigger] p[k] != #[trigger] p[l]
    &&& forall|k: int| 0 <= k < sv.len() ==> #[trigger] sv[k] == input[p[k]]
    &&& in_natural_order(sv)
    &&& forall|k: int, l: int|
        0 <= k < l < sv.len() && path_order(#[trigger] sv[k], #[trigger] sv[l]) == 0 ==> p[k] < p[l]
}

/// Where the scan for the place of `x` stops, everything before is not after
/// `x`.
proof fn lemma_place_found(sv: Seq<Seq<Seq<char>>>, x: Seq<Seq<char>>, q: int)
    requires
        in_natural_order(sv),
        0 < q <= sv.len(),
        path_order(sv[q - 1], x) <= 0,
    ensures
        forall|k: int| 0 <= k < q ==> path_order(#[trigger] sv[k], x) <= 0,
{
    lemma_path_order_is_order();
    assert forall|k: int| 0 <= k < q implies path_order(#[trigger] sv[k], x) <= 0 by {
        if k < q - 1 {
            assert(path_order(sv[k], sv[q - 1]) <= 0);
        }
    }
}

/// Inserting the next input path after everything that is not after it, and
/// before everything that is, keeps the prefix sorted and stable.
proof fn lemma_insert_sorted(sv: Seq<Seq<Seq<char>>>, p: Seq<int>, input: Seq<Seq<Seq<char>>>, q: int)
    requires
        sorted_prefix(sv, p, input),
        sv.len() < input.len(),
        0 <= q <= sv.len(),
        forall|k: int| 0 <= k < q ==> path_order(#[trigger] sv[k], input[sv.len() as int]) <= 0,
        forall|m: int| q <= m < sv.len() ==> path_order(#[trigger] sv[m], input[sv.len() as int]) > 0,
    ensures
        sorted_prefix(sv.insert(q, input[sv.len() as int]), p.insert(q, sv.len() as int), input),
{
    lemma_path_order_is_order();
    let j = sv.len() as int;
    let x = input[j];
    let nv = sv.insert(q, x);
    let np = p.insert(q, j);
    assert forall|k: int| 0 <= k < nv.len() implies #[trigger] nv[k] == input[np[k]] by {
        if k < q {
            assert(nv[k] == sv[k] && np[k] == p[k]);
        } else if k > q {
            assert(nv[k] == sv[k - 1] && np[k] == p[k - 1]);
        }
    }
    assert forall|k: int| 0 <= k < np.len() implies 0 <= #[trigger] np[k] < nv.len() by {
        if k < q {
            assert(np[k] == p[k]);
        } else if k > q {
            assert(np[k] == p[k - 1]);
        }
    }
    assert forall|k: int, l: int| 0 <= k < l < np.len() implies #[trigger] np[k] != #[trigger] np[l] by {
        if k < q && l < q {
            assert(np[k] == p[k] && np[l] == p[l]);
        } else if k < q && l == q {
            assert(np[k] == p[k]);
        } else if k < q {
            assert(np[k] == p[k] && np[l] == p[l - 1]);
        } else if k == q {
            assert(np[l] == p[l - 1]);
        } else {
            assert(np[k] == p[k - 1] && np[l] == p[l - 1]);
        }
    }
    assert forall|k: int, l: int| 0 <= k < l < nv.len() implies path_order(
        #[trigger] nv[k],
        #[trigger] nv[l],
    ) <= 0 by {
        if k < q && l < q {
            assert(nv[k] == sv[k] && nv[l] == sv[l]);
        } else if k < q && l == q {
            assert(nv[k] == sv[k]);
        } else if k < q {
            assert(nv[k] == sv[k] && nv[l] == sv[l - 1]);
        } else if k == q {
            assert(nv[l] == sv[l - 1]);
            assert(path_order(sv[l - 1], x) > 0);
        } else {
            assert(nv[k] == sv[k - 1] && nv[l] == sv[l - 1]);
        }
    }
    assert forall|k: int, l: int|
        0 <= k < l < nv.len() && path_order(#[trigger] nv[k], #[trigger] nv[l]) == 0 implies np[k]
        < np[l] by {
        if k < q && l < q {
            assert(nv[k] == sv[k] && nv[l] == sv[l]);
            assert(np[k] == p[k] && np[l] == p[l]);
        } else if k < q && l == q {
            assert(np[k] == p[k]);
        } else if k < q {
            assert(nv[k] == sv[k] && nv[l] == sv[l - 1]);
            assert(np[k] == p[k] && np[l] == p[l - 1]);
        } else if k == q {
            assert(nv[l] == sv[l - 1]);
            assert(path_order(sv[l - 1], x) > 0);
        } else {
            assert(nv[k] == sv[k - 1] && nv[l] == sv[l - 1]);
            assert(np[k] == p[k - 1] && np[l] == p[l - 1]);
        }
    }
}

/// Sorts paths in natural order, keeping the input order of paths that
/// compare equal.
pub fn sort_naturally(items: Vec<PathParts>) -> (r: Vec<PathParts>)
    ensures
        is_stable_sort_of(paths_view(r@), paths_view(items@)),
{
    let ghost input = paths_view(items@);
    let n = items.len();
    let mut rest = items;
    let mut sorted: Vec<PathParts> = Vec::new();
    let mut keys: Vec<Vec<Vec<Chunk>>> = Vec::new();
    let ghost mut p: Seq<int> = Seq::empty();
    let mut j: usize = 0;
    proof {
        assert(paths_view(rest@) =~= input.skip(0));
        assert(paths_view(sorted@) =~= Seq::<Seq<Seq<char>>>::empty());
    }
    while j < n
        invariant
            n == input.len(),
            j <= n,
            paths_view(rest@) == input.skip(j as int),
            rest@.len() == n - j,
            sorted@.len() == j,
            keys@.len() == j,
            forall|k: int| 0 <= k < j ==> keys_view(#[trigger] keys@[k]@) == path_key(sorted@[k]@),
            sorted_prefix(paths_view(sorted@), p, input),
        decreases n - j,
    {
        let ghost before_rest = rest@;
        let item = rest.remove(0);
        proof {
            assert(paths_view(before_rest)[0] == item@);
            assert(item@ == input[j as int]);
            assert forall|k: int| 0 <= k < rest@.len() implies paths_view(rest@)[k] == input.skip(
                j + 1,
            )[k] by {
                assert(rest@[k] == before_rest[k + 1]);
                assert(paths_view(before_rest)[k + 1] == before_rest[k + 1]@);
            }
            assert(paths_view(rest@) =~= input.skip(j + 1));
        }
        let item_keys = path_keys(&item);
        let mut q: usize = j;
        while q > 0 && compare_path_keys(&keys[q - 1], &item_keys) > 0
            invariant
                q <= j,
                keys@.len() == j,
                sorted@.len() == j,
                keys_view(item_keys@) == path_key(item@),
                forall|k: int| 0 <= k < j ==> keys_view(#[trigger] keys@[k]@) == path_key(sorted@[k]@),
                forall|m: int| q <= m < j ==> path_order(#[trigger] paths_view(sorted@)[m], item@) > 0,
            decreases q,
        {
            assert(paths_view(sorted@)[q - 1] == sorted@[q - 1]@);
            q = q - 1;
        }
        let ghost sv = paths_view(sorted@);
        proof {
            if q > 0 {
                assert(sv[q - 1] == sorted@[q - 1]@);
                lemma_place_found(sv, item@, q as int);
            }
            lemma_insert_sorted(sv, p, input, q as int);
        }
        let ghost old_sorted = sorted@;
        let ghost old_keys = keys@;
        sorted.insert(q, item);
        keys.insert(q, item_keys);
        proof {
            p = p.insert(q as int, j as int);
            assert(paths_view(sorted@) =~= sv.insert(q as int, input[j as int]));
            assert forall|k: int| 0 <= k < j + 1 implies keys_view(#[trigger] keys@[k]@) == path_key(
                sorted@[k]@,
            ) by {
                if k < q {
                    assert(keys@[k] == old_keys[k] && sorted@[k] == old_sorted[k]);
                } else if k > q {
                    assert(keys@[k] == old_keys[k - 1] && sorted@[k] == old_sorted[k - 1]);
                }
            }
        }
        j = j + 1;
    }
    proof {
        let out = paths_view(sorted@);
        assert(is_permutation(p, input.len()));
        assert(out.len() == input.len());
    }
    sorted
}

/// The paths that name a `.zip` archive.
pub open spec fn archive_filter() -> spec_fn(Seq<Seq<char>>) -> bool {
    |p: Seq<Seq<char>>| has_extension_in(p, archive_extensions())
}

/// The paths that name an image in a supported format.
pub open spec fn image_filter() -> spec_fn(Seq<Seq<char>>) -> bool {
    |p: Seq<Seq<char>>| has_extension_in(p, image_extensions())
}

fn keep_archives(files: Vec<PathParts>) -> (r: Vec<PathParts>)
    ensures
        paths_view(r@) == paths_view(files@).filter(archive_filter()),
{
    let ghost input = paths_view(files@);
    let mut out: Vec<PathParts> = Vec::new();
    let mut rest = files;
    let n = rest.len();
    let mut i: usize = 0;
    proof {
        assert(paths_view(rest@) =~= input.skip(0));
        assert(input.take(0) =~= Seq::<Seq<Seq<char>>>::empty());
        reveal(Seq::filter);
    }
    while i < n
        invariant
            n == input.len(),
            i <= n,
            paths_view(rest@) == input.skip(i as int),
            rest@.len() == n - i,
            paths_view(out@) == input.take(i as int).filter(archive_filter()),
        decreases n - i,
    {
        let ghost before_rest = rest@;
        let item = rest.remove(0);
        proof {
            assert(paths_view(before_rest)[0] == item@);
            assert(item@ == input[i as int]);
            assert forall|k: int| 0 <= k < rest@.len() implies paths_view(rest@)[k] == input.skip(
                i + 1,
            )[k] by {
                assert(rest@[k] == before_rest[k + 1]);
                assert(paths_view(before_rest)[k + 1] == before_rest[k + 1]@);
            }
            assert(paths_view(rest@) =~= input.skip(i + 1));
            assert(input.take(i + 1) =~= input.take(i as int).push(item@));
            input.take(i as int).lemma_filter_push(item@, archive_filter());
        }
        let ghost before = out@;
        if is_zip(&item) {
            out.push(item);
            proof {
                assert(paths_view(out@) =~= paths_view(before).push(input[i as int]));
            }
        }
        i = i + 1;
    }
    assert(input.take(n as int) =~= input);
    out
}

fn keep_images(files: Vec<PathParts>) -> (r: Vec<PathParts>)
    ensures
        paths_view(r@) == paths_view(files@).filter(image_filter()),
{
    let ghost input = paths_view(files@);
    let mut out: Vec<PathParts> = Vec::new();
    let mut rest = files;
    let n = rest.len();
    let mut i: usize = 0;
    proof {
        assert(paths_view(rest@) =~= input.skip(0));
        assert(input.take(0) =~= Seq::<Seq<Seq<char>>>::empty());
        reveal(Seq::filter);
    }
    while i < n
        invariant
            n == input.len(),
            i <= n,
            paths_view(rest@) == input.skip(i as int),
            rest@.len() == n - i,
            paths_view(out@) == input.take(i as int).filter(image_filter()),
        decreases n - i,
    {
        let ghost before_rest = rest@;
        let item = rest.remove(0);
        proof {
            assert(paths_view(before_rest)[0] == item@);
            assert(item@ == input[i as int]);
            assert forall|k: int| 0 <= k < rest@.len() implies paths_view(rest@)[k] == input.skip(
                i + 1,
            )[k] by {
                assert(rest@[k] == before_rest[k + 1]);
                assert(paths_view(before_rest)[k + 1] == before_rest[k + 1]@);
            }
            assert(paths_view(rest@) =~= input.skip(i + 1));
            assert(input.take(i + 1) =~= input.take(i as int).push(item@));
            input.take(i as int).lemma_filter_push(item@, image_filter());
        }
        let ghost before = out@;
        if is_image(&item) {
            out.push(item);
            proof {
                assert(paths_view(out@) =~= paths_view(before).push(input[i as int]));
            }
        }
        i = i + 1;
    }
    assert(input.take(n as int) =~= input);
    out
}

/// The `.zip` archives among `files` (a listing of every file under a
/// folder), in natural order.
pub fn find_archives(files: Vec<PathParts>) -> (r: Vec<PathParts>)
    ensures
        is_stable_sort_of(paths_view(r@), paths_view(files@).filter(archive_filter())),
{
    sort_naturally(keep_archives(files))
}

/// The images among `files` (a listing of every file under a folder), in
/// natural order.
pub fn find_images(files: Vec<PathParts>) -> (r: Vec<PathParts>)
    ensures
        is_stable_sort_of(paths_view(r@), paths_view(files@).filter(image_filter())),
{
    sort_naturally(keep_images(files))
}

} // verus!

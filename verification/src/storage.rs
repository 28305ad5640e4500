//! Names and order of the files of a stored project.
use vstd::prelude::*;
use vstd::string::*;
use crate::project::{sanitize, sanitized};
use crate::text::{append_str, str_eq};

verus! {

/// File of a GRAFCET in the project's `grafcets` folder.
pub fn grafcet_file_name(name: &str) -> (r: String)
    ensures
        r@ == sanitized(name@) + ".json"@,
{
    let mut r = sanitize(name);
    append_str(&mut r, ".json");
    r
}

/// Rank of a stored GRAFCET: `GS`, `GC` and `GPN` come first, in this order.
pub open spec fn file_rank(name: Seq<char>) -> int {
    if name == "GS"@ {
        0
    } else if name == "GC"@ {
        1
    } else if name == "GPN"@ {
        2
    } else {
        99
    }
}

/// `a` comes before `b` or equals it, character by character.
pub open spec fn text_le(a: Seq<char>, b: Seq<char>) -> bool
    decreases a.len(),
{
    if a.len() == 0 {
        true
    } else if b.len() == 0 {
        false
    } else if (a[0] as u32) < (b[0] as u32) {
        true
    } else if (a[0] as u32) > (b[0] as u32) {
        false
    } else {
        text_le(a.drop_first(), b.drop_first())
    }
}

/// Order of the stored GRAFCETs: by rank, then by name.
pub open spec fn file_le(a: Seq<char>, b: Seq<char>) -> bool {
    file_rank(a) < file_rank(b) || (file_rank(a) == file_rank(b) && text_le(a, b))
}

/// Every name comes before or with the names after it.
pub open spec fn files_sorted(s: Seq<Seq<char>>) -> bool {
    forall|i: int, j: int| 0 <= i < j < s.len() ==> file_le(#[trigger] s[i], #[trigger] s[j])
}

proof fn lemma_text_total(a: Seq<char>, b: Seq<char>)
    ensures
        text_le(a, b) || text_le(b, a),
    decreases a.len(),
{
    if a.len() > 0 && b.len() > 0 && a[0] as u32 == b[0] as u32 {
        lemma_text_total(a.drop_first(), b.drop_first());
    }
}

proof fn lemma_text_trans(a: Seq<char>, b: Seq<char>, c: Seq<char>)
    requires
        text_le(a, b),
        text_le(b, c),
    ensures
        text_le(a, c),
    decreases a.len(),
{
    if a.len() > 0 && b.len() > 0 && c.len() > 0 {
        if a[0] as u32 == b[0] as u32 && b[0] as u32 == c[0] as u32 {
            lemma_text_trans(a.drop_first(), b.drop_first(), c.drop_first());
        }
    }
}

proof fn lemma_file_total(a: Seq<char>, b: Seq<char>)
    ensures
        file_le(a, b) || file_le(b, a),
{
    lemma_text_total(a, b);
}

proof fn lemma_file_trans(a: Seq<char>, b: Seq<char>, c: Seq<char>)
    requires
        file_le(a, b),
        file_le(b, c),
    ensures
        file_le(a, c),
{
    if file_rank(a) == file_rank(b) && file_rank(b) == file_rank(c) {
        lemma_text_trans(a, b, c);
    }
}

/// Whether `a` comes before or with `b` (see `text_le`).
fn text_le_exec(a: &str, b: &str) -> (r: bool)
    ensures
        r == text_le(a@, b@),
{
    let na = a.unicode_len();
    let nb = b.unicode_len();
    let mut i: usize = 0;
    assert(a@.skip(0) =~= a@);
    assert(b@.skip(0) =~= b@);
    while i < na && i < nb
        invariant
            na == a@.len(),
            nb == b@.len(),
            0 <= i <= na,
            i <= nb,
            text_le(a@, b@) == text_le(a@.skip(i as int), b@.skip(i as int)),
        decreases na - i,
    {
        let x = a.get_char(i);
        let y = b.get_char(i);
        assert(a@.skip(i as int)[0] == x);
        assert(b@.skip(i as int)[0] == y);
        assert(a@.skip(i as int).drop_first() =~= a@.skip(i + 1));
        assert(b@.skip(i as int).drop_first() =~= b@.skip(i + 1));
        if (x as u32) < (y as u32) {
            return true;
        }
        if (x as u32) > (y as u32) {
            return false;
        }
        i = i + 1;
    }
    i == na
}

/// Rank of a stored GRAFCET (see `file_rank`).
fn file_rank_exec(name: &str) -> (r: u32)
    ensures
        r as int == file_rank(name@),
{
    if str_eq(name, "GS") {
        0
    } else if str_eq(name, "GC") {
        1
    } else if str_eq(name, "GPN") {
        2
    } else {
        99
    }
}

/// Whether `a` comes before or with `b` (see `file_le`).
fn file_le_exec(a: &str, b: &str) -> (r: bool)
    ensures
        r == file_le(a@, b@),
{
    let ra = file_rank_exec(a);
    let rb = file_rank_exec(b);
    ra < rb || (ra == rb && text_le_exec(a, b))
}

/// The stored GRAFCETs in the order they are opened: `GS`, `GC`, `GPN`,
/// then the others by name. Each name is kept, and only those.
pub fn order_grafcet_files(names: Vec<String>) -> (r: Vec<String>)
    ensures
        r.deep_view().to_multiset() == names.deep_view().to_multiset(),
        files_sorted(r.deep_view()),
{
    let ghost input = names.deep_view();
    let mut names = names;
    let mut r: Vec<String> = Vec::new();
    let ghost mut taken: Seq<Seq<char>> = Seq::empty();
    proof {
        assert(input =~= taken + names.deep_view());
        assert(r.deep_view() =~= taken);
    }
    while names.len() > 0
        invariant
            input == taken + names.deep_view(),
            r.deep_view().to_multiset() == taken.to_multiset(),
            files_sorted(r.deep_view()),
        decreases names.len(),
    {
        let x = names.remove(0);
        proof {
            assert(input == (taken + seq![x@]) + names.deep_view()) by {
                assert(input =~= (taken + seq![x@]) + names.deep_view());
            }
        }
        let ghost rv = r.deep_view();
        let n = r.len();
        let mut p: usize = 0;
        while p < n && file_le_exec(r[p].as_str(), x.as_str())
            invariant
                n == r@.len(),
                rv == r.deep_view(),
                0 <= p <= n,
                forall|k: int| 0 <= k < p ==> file_le(#[trigger] rv[k], x@),
            decreases n - p,
        {
            p = p + 1;
        }
        proof {
            if p < n {
                assert(!file_le(rv[p as int], x@));
                lemma_file_total(rv[p as int], x@);
            }
        }
        r.insert(p, x);
        proof {
            let nv = r.deep_view();
            assert(nv =~= rv.insert(p as int, x@));
            assert forall|i: int, j: int| 0 <= i < j < nv.len() implies file_le(#[trigger] nv[i], #[trigger] nv[j]) by {
                if j < p {
                    assert(nv[i] == rv[i] && nv[j] == rv[j]);
                } else if j == p {
                    assert(nv[i] == rv[i]);
                } else if i == p {
                    assert(nv[j] == rv[j - 1]);
                    assert(file_le(x@, rv[p as int]));
                    if j - 1 > p {
                        lemma_file_trans(x@, rv[p as int], rv[j - 1]);
                    }
                } else if i < p {
                    assert(nv[i] == rv[i] && nv[j] == rv[j - 1]);
                } else {
                    assert(nv[i] == rv[i - 1] && nv[j] == rv[j - 1]);
                }
            }
            vstd::seq_lib::to_multiset_insert(rv, p as int, x@);
            vstd::seq_lib::to_multiset_build(taken, x@);
            assert(taken + seq![x@] =~= taken.push(x@));
            taken = taken + seq![x@];
        }
    }
    proof {
        assert(taken =~= input);
    }
    r
}

} // verus!

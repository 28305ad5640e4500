//! What the GEMMA diagram writes in a state box, and which segments of a
//! link route can be dragged.
use vstd::prelude::*;
use vstd::string::*;
use crate::text::{str_eq, str_trim_start, str_trim_start_char, strip_start_char, trim_start_spec};

verus! {

/// Long title of a standard GEMMA state, empty for any other name. Line
/// breaks fit the title to the width of its box.
pub open spec fn state_title(id: Seq<char>) -> Seq<char> {
    if id == "A1"@ {
        "Arrêt dans\nl'état initial"@
    } else if id == "A5"@ {
        "Préparation pour\nremise en route\naprès défaillance"@
    } else if id == "A6"@ {
        "Mise en route\nnormale"@
    } else if id == "D1"@ {
        "Arrêt d'urgence"@
    } else if id == "D3"@ {
        "Production tout de même"@
    } else if id == "F1"@ {
        "Production normale"@
    } else if id == "A4"@ {
        "Arrêt obtenu\ndans état\ndéterminé"@
    } else if id == "A7"@ {
        "Mise en route\naprès défaillance"@
    } else if id == "D2"@ {
        "Diagnostic et/ou\ntraitement de\ndéfaillance"@
    } else if id == "A2"@ {
        "Arrêt\ndemandé\nen fin\nde cycle"@
    } else if id == "A3"@ {
        "Arrêt\ndemandé\ndans état\ndéterminé"@
    } else if id == "F2"@ {
        "Marches\nde\npréparation"@
    } else if id == "F3"@ {
        "Marches\nde clôture"@
    } else if id == "F4"@ {
        "Marches de\nvérification\ndans le\ndésordre"@
    } else if id == "F5"@ {
        "Marches de\nvérification\ndans l'ordre"@
    } else if id == "F6"@ {
        "Marches\nde test"@
    } else {
        ""@
    }
}

/// Long title of a standard GEMMA state (see `state_title`).
pub fn state_name(id: &str) -> (r: &'static str)
    ensures
        r@ == state_title(id@),
{
    if str_eq(id, "A1") {
        "Arrêt dans\nl'état initial"
    } else if str_eq(id, "A5") {
        "Préparation pour\nremise en route\naprès défaillance"
    } else if str_eq(id, "A6") {
        "Mise en route\nnormale"
    } else if str_eq(id, "D1") {
        "Arrêt d'urgence"
    } else if str_eq(id, "D3") {
        "Production tout de même"
    } else if str_eq(id, "F1") {
        "Production normale"
    } else if str_eq(id, "A4") {
        "Arrêt obtenu\ndans état\ndéterminé"
    } else if str_eq(id, "A7") {
        "Mise en route\naprès défaillance"
    } else if str_eq(id, "D2") {
        "Diagnostic et/ou\ntraitement de\ndéfaillance"
    } else if str_eq(id, "A2") {
        "Arrêt\ndemandé\nen fin\nde cycle"
    } else if str_eq(id, "A3") {
        "Arrêt\ndemandé\ndans état\ndéterminé"
    } else if str_eq(id, "F2") {
        "Marches\nde\npréparation"
    } else if str_eq(id, "F3") {
        "Marches\nde clôture"
    } else if str_eq(id, "F4") {
        "Marches de\nvérification\ndans le\ndésordre"
    } else if str_eq(id, "F5") {
        "Marches de\nvérification\ndans l'ordre"
    } else if str_eq(id, "F6") {
        "Marches\nde test"
    } else {
        ""
    }
}

/// Index of the first occurrence of `c` in `s`, or -1.
pub open spec fn first_char_index(s: Seq<char>, c: char) -> int
    decreases s.len(),
{
    if s.len() == 0 {
        -1
    } else {
        let r = first_char_index(s.drop_last(), c);
        if r >= 0 {
            r
        } else if s.last() == c {
            s.len() - 1
        } else {
            -1
        }
    }
}

/// A title cut after its first word: at the first line break (the rest
/// without its leading line breaks), else at the first space (the rest
/// without its leading white space), else not at all.
pub open spec fn title_split(s: Seq<char>) -> (Seq<char>, Seq<char>) {
    let nl = first_char_index(s, '\n');
    let sp = first_char_index(s, ' ');
    if nl >= 0 {
        (s.subrange(0, nl), strip_start_char(s.subrange(nl + 1, s.len() as int), '\n'))
    } else if sp >= 0 {
        (s.subrange(0, sp), trim_start_spec(s.subrange(sp + 1, s.len() as int)))
    } else {
        (s, Seq::empty())
    }
}

proof fn lemma_first_char_index(s: Seq<char>, c: char)
    ensures
        -1 <= first_char_index(s, c) < s.len(),
        first_char_index(s, c) >= 0 ==> s[first_char_index(s, c)] == c,
        first_char_index(s, c) == -1 ==> forall|j: int| 0 <= j < s.len() ==> s[j] != c,
    decreases s.len(),
{
    if s.len() > 0 {
        lemma_first_char_index(s.drop_last(), c);
        assert forall|j: int| 0 <= j < s.len() - 1 implies s.drop_last()[j] == s[j] by {}
    }
}

/// Index of the first occurrence of `c` in `s`.
fn find_char(s: &str, c: char) -> (r: Option<usize>)
    ensures
        match r {
            Some(i) => i as int == first_char_index(s@, c),
            None => first_char_index(s@, c) == -1,
        },
{
    let n = s.unicode_len();
    let mut i: usize = 0;
    while i < n
        invariant
            n == s@.len(),
            0 <= i <= n,
            first_char_index(s@.take(i as int), c) == -1,
        decreases n - i,
    {
        assert(s@.take(i + 1).drop_last() =~= s@.take(i as int));
        if s.get_char(i) == c {
            proof {
                lemma_prefix_char(s@, c, i + 1);
            }
            return Some(i);
        }
        i = i + 1;
    }
    assert(s@.take(n as int) =~= s@);
    None
}

proof fn lemma_prefix_char(s: Seq<char>, c: char, k: int)
    requires
        0 <= k <= s.len(),
        first_char_index(s.take(k), c) >= 0,
    ensures
        first_char_index(s, c) == first_char_index(s.take(k), c),
    decreases s.len() - k,
{
    if k < s.len() {
        assert(s.take(k + 1).drop_last() =~= s.take(k));
        lemma_prefix_char(s, c, k + 1);
    } else {
        assert(s.take(k) =~= s);
    }
}

/// A title cut after its first word (see `title_split`).
pub fn state_name_split(name: &str) -> (r: (&str, &str))
    ensures
        (r.0@, r.1@) == title_split(name@),
{
    let n = name.unicode_len();
    proof {
        lemma_first_char_index(name@, '\n');
        lemma_first_char_index(name@, ' ');
    }
    match find_char(name, '\n') {
        Some(pos) => {
            let head = name.substring_char(0, pos);
            let rest = name.substring_char(pos + 1, n);
            (head, str_trim_start_char(rest, '\n'))
        },
        None => match find_char(name, ' ') {
            Some(pos) => {
                let head = name.substring_char(0, pos);
                let rest = name.substring_char(pos + 1, n);
                (head, str_trim_start(rest))
            },
            None => {
                proof {
                    reveal_strlit("");
                }
                (name, "")
            },
        },
    }
}

/// Segments `i -> i+1` of a route of `n` points that can be dragged, as the
/// half-open range `start..end`: the middle segment of an S-shape (4 points),
/// the segments between the two end stubs when there are 6 points or more,
/// none otherwise.
pub open spec fn handle_range(n: nat) -> (nat, nat) {
    if n == 4 {
        (1, 2)
    } else if n >= 6 {
        (2, (n - 3) as nat)
    } else {
        (0, 0)
    }
}

/// Draggable segments of a route of `n` points (see `handle_range`).
pub fn seg_handle_range(n: usize) -> (r: core::ops::Range<usize>)
    ensures
        (r.start as nat, r.end as nat) == handle_range(n as nat),
{
    if n == 4 {
        1..2
    } else if n >= 6 {
        2..(n - 3)
    } else {
        0..0
    }
}

/// Side of a state box where a link is anchored.
#[derive(PartialEq, Eq, Structural, Clone, Copy, Debug)]
pub enum Side {
    N,
    S,
    E,
    W,
}

/// Whether a link leaves this side horizontally (east or west).
pub fn is_horiz(s: Side) -> (r: bool)
    ensures
        r == (s == Side::E || s == Side::W),
{
    match s {
        Side::E | Side::W => true,
        _ => false,
    }
}

} // verus!

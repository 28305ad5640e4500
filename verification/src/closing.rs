//! Closing the open circuits of a GEMMA by the normalised GEMMA rules.
use vstd::prelude::*;
use crate::gemma::{
    Expr, Gemma, GemmaStateView, GemmaTransitionView, GemmaView, expr_from_text, is_state_name,
};
use crate::text::{str_eq, string_of};

verus! {

// ── Rules ─────────────────────────────────────────────────────────────────────

/// The transitions that are never generated automatically: D1→F1 (safety
/// short-cut), A3→F1 (skipping the controlled stop), A7→F1 (production from
/// maintenance) and A1→F6 (test outside the setting mode).
pub open spec fn is_forbidden(from: Seq<char>, to: Seq<char>) -> bool {
    ||| from == "D1"@ && to == "F1"@
    ||| from == "A3"@ && to == "F1"@
    ||| from == "A7"@ && to == "F1"@
    ||| from == "A1"@ && to == "F6"@
}

/// For a state without outgoing transition: the ordered candidate
/// (destination, condition) pairs.
pub open spec fn drain_candidates(sid: Seq<char>) -> Seq<(Seq<char>, Seq<char>)> {
    if sid == "A2"@ {
        seq![("A1"@, "Fin_cycle"@)]
    } else if sid == "A3"@ {
        seq![("A4"@, "Arret_obtenu"@)]
    } else if sid == "A4"@ {
        seq![("F1"@, "Remise_en_marche"@), ("A6"@, "Init_position"@), ("A1"@, "Retour_initial"@)]
    } else if sid == "A5"@ {
        seq![("A6"@, "Reprise_apres_defaut"@), ("A1"@, "Reprise_apres_defaut"@)]
    } else if sid == "A7"@ {
        seq![("A4"@, "Arret_obtenu"@), ("A6"@, "Quitter_reglage"@)]
    } else if sid == "D1"@ {
        seq![("D2"@, "EU_relachee"@), ("A5"@, "Reset_direct"@)]
    } else if sid == "D2"@ {
        seq![("A5"@, "Acquit_defaut"@), ("A1"@, "Acquit_defaut"@)]
    } else if sid == "D3"@ {
        seq![("F1"@, "Defaut_resolu"@), ("A1"@, "Defaut_resolu"@)]
    } else if sid == "F2"@ {
        seq![("F1"@, "Preparation_ok"@), ("A1"@, "Fin_preparation"@)]
    } else if sid == "F3"@ {
        seq![("A1"@, "Cloture_ok"@)]
    } else if sid == "F4"@ {
        seq![("A6"@, "CI"@), ("A1"@, "CI"@)]
    } else if sid == "F5"@ {
        seq![("F1"@, "Fin_verif"@), ("F4"@, "Passage_verif_libre"@), ("A1"@, "Fin_verif"@)]
    } else if sid == "F6"@ {
        seq![("F1"@, "Fin_test"@), ("A7"@, "Retour_reglage"@)]
    } else {
        Seq::empty()
    }
}

/// For a non-initial state without incoming transition: the ordered candidate
/// (source, condition) pairs.
pub open spec fn source_candidates(sid: Seq<char>) -> Seq<(Seq<char>, Seq<char>)> {
    if sid == "A5"@ {
        seq![("D1"@, "Reset_direct"@), ("D2"@, "Acquit_defaut"@), ("F1"@, "Defaut"@)]
    } else if sid == "A7"@ {
        seq![("A5"@, "Mode_reglage"@), ("A1"@, "Mode_reglage"@)]
    } else if sid == "D1"@ {
        seq![("F1"@, "Defaut"@), ("F6"@, "AU"@)]
    } else if sid == "D2"@ {
        seq![("D1"@, "EU_relachee"@), ("F1"@, "Defaut_direct"@)]
    } else if sid == "D3"@ {
        seq![("F1"@, "Defaut_mineur"@)]
    } else if sid == "F2"@ {
        seq![("A1"@, "Mode_preparation"@)]
    } else if sid == "F3"@ {
        seq![("F1"@, "Mode_cloture"@)]
    } else if sid == "F4"@ {
        seq![("A1"@, "Mode_verif_libre"@), ("F1"@, "Mode_verif_libre"@)]
    } else if sid == "F5"@ {
        seq![("A1"@, "Mode_verif_seq"@), ("F1"@, "Mode_verif_seq"@)]
    } else if sid == "F6"@ {
        seq![("A7"@, "Mode_test"@), ("F1"@, "Mode_test"@)]
    } else {
        Seq::empty()
    }
}

/// A1 and A6 are legitimate starting states that need no incoming transition.
pub open spec fn is_start_state(name: Seq<char>) -> bool {
    name == "A1"@ || name == "A6"@
}

pub open spec fn has_outgoing(ts: Seq<GemmaTransitionView>, name: Seq<char>) -> bool {
    exists|k: int| 0 <= k < ts.len() && #[trigger] ts[k].from == name
}

pub open spec fn has_incoming(ts: Seq<GemmaTransitionView>, name: Seq<char>) -> bool {
    exists|k: int| 0 <= k < ts.len() && #[trigger] ts[k].to == name
}

/// A state that no transition leaves.
pub open spec fn is_drain(ts: Seq<GemmaTransitionView>, s: GemmaStateView) -> bool {
    !has_outgoing(ts, s.id)
}

/// A state, other than A1 and A6, that no transition reaches.
pub open spec fn is_source(ts: Seq<GemmaTransitionView>, s: GemmaStateView) -> bool {
    !is_start_state(s.id) && !has_incoming(ts, s.id)
}

/// A state without outgoing transition whose drain rule has a usable
/// destination among `states`.
pub open spec fn closable_drain(states: Seq<GemmaStateView>, ts: Seq<GemmaTransitionView>, s: GemmaStateView) -> bool {
    is_drain(ts, s) && first_usable_target(states, s.id, drain_candidates(s.id)) >= 0
}

/// A state other than A1 and A6 without incoming transition whose source
/// rule has a usable origin among `states`.
pub open spec fn closable_source(states: Seq<GemmaStateView>, ts: Seq<GemmaTransitionView>, s: GemmaStateView) -> bool {
    is_source(ts, s) && first_usable_source(states, s.id, source_candidates(s.id)) >= 0
}

/// Index in `prefix` of the first state that `closable_drain` accepts among
/// `all`, or -1.
pub open spec fn first_drain_in(all: Seq<GemmaStateView>, prefix: Seq<GemmaStateView>, ts: Seq<GemmaTransitionView>) -> int
    decreases prefix.len(),
{
    if prefix.len() == 0 {
        -1
    } else {
        let r = first_drain_in(all, prefix.drop_last(), ts);
        if r >= 0 {
            r
        } else if closable_drain(all, ts, prefix.last()) {
            prefix.len() - 1
        } else {
            -1
        }
    }
}

/// Index in `prefix` of the first state that `closable_source` accepts among
/// `all`, or -1.
pub open spec fn first_source_in(all: Seq<GemmaStateView>, prefix: Seq<GemmaStateView>, ts: Seq<GemmaTransitionView>) -> int
    decreases prefix.len(),
{
    if prefix.len() == 0 {
        -1
    } else {
        let r = first_source_in(all, prefix.drop_last(), ts);
        if r >= 0 {
            r
        } else if closable_source(all, ts, prefix.last()) {
            prefix.len() - 1
        } else {
            -1
        }
    }
}

/// Index of the first state without outgoing transition that its drain rule
/// can close, or -1.
pub open spec fn first_drain(states: Seq<GemmaStateView>, ts: Seq<GemmaTransitionView>) -> int {
    first_drain_in(states, states, ts)
}

/// Index of the first state other than A1 and A6 without incoming transition
/// that its source rule can close, or -1.
pub open spec fn first_source(states: Seq<GemmaStateView>, ts: Seq<GemmaTransitionView>) -> int {
    first_source_in(states, states, ts)
}

/// Number of drain states.
pub open spec fn drain_count(states: Seq<GemmaStateView>, ts: Seq<GemmaTransitionView>) -> nat
    decreases states.len(),
{
    if states.len() == 0 {
        0
    } else {
        drain_count(states.drop_last(), ts) + if is_drain(ts, states.last()) {
            1nat
        } else {
            0nat
        }
    }
}

/// Number of source states.
pub open spec fn source_count(states: Seq<GemmaStateView>, ts: Seq<GemmaTransitionView>) -> nat
    decreases states.len(),
{
    if states.len() == 0 {
        0
    } else {
        source_count(states.drop_last(), ts) + if is_source(ts, states.last()) {
            1nat
        } else {
            0nat
        }
    }
}

/// Index of the first candidate destination of `sid` that is allowed and
/// exists, or -1.
pub open spec fn first_usable_target(
    states: Seq<GemmaStateView>,
    sid: Seq<char>,
    cands: Seq<(Seq<char>, Seq<char>)>,
) -> int
    decreases cands.len(),
{
    if cands.len() == 0 {
        -1
    } else {
        let r = first_usable_target(states, sid, cands.drop_last());
        if r >= 0 {
            r
        } else if !is_forbidden(sid, cands.last().0) && is_state_name(states, cands.last().0) {
            cands.len() - 1
        } else {
            -1
        }
    }
}

/// Index of the first candidate source of `sid` that is allowed and exists,
/// or -1.
pub open spec fn first_usable_source(
    states: Seq<GemmaStateView>,
    sid: Seq<char>,
    cands: Seq<(Seq<char>, Seq<char>)>,
) -> int
    decreases cands.len(),
{
    if cands.len() == 0 {
        -1
    } else {
        let r = first_usable_source(states, sid, cands.drop_last());
        if r >= 0 {
            r
        } else if !is_forbidden(cands.last().0, sid) && is_state_name(states, cands.last().0) {
            cands.len() - 1
        } else {
            -1
        }
    }
}

/// One step of the first pass: the first state without outgoing transition
/// that has a usable drain rule receives the outgoing transition of that
/// rule; `None` when no such state is left.
pub open spec fn drain_step(g: GemmaView) -> Option<GemmaView> {
    let d = first_drain(g.states, g.transitions);
    if d < 0 {
        None
    } else {
        let sid = g.states[d].id;
        let cands = drain_candidates(sid);
        let c = first_usable_target(g.states, sid, cands);
        if c < 0 {
            None
        } else {
            Some(g.after_add_transition(sid, cands[c].0, expr_from_text(cands[c].1)))
        }
    }
}

/// One step of the second pass: the first state other than A1 and A6 without
/// incoming transition that has a usable source rule receives the incoming
/// transition of that rule; `None` when no such state is left.
pub open spec fn source_step(g: GemmaView) -> Option<GemmaView> {
    let d = first_source(g.states, g.transitions);
    if d < 0 {
        None
    } else {
        let sid = g.states[d].id;
        let cands = source_candidates(sid);
        let c = first_usable_source(g.states, sid, cands);
        if c < 0 {
            None
        } else {
            Some(g.after_add_transition(cands[c].0, sid, expr_from_text(cands[c].1)))
        }
    }
}

/// The first pass, repeated until it stops.
pub open spec fn drain_pass(g: GemmaView) -> GemmaView
    decreases drain_count(g.states, g.transitions),
{
    if drain_step(g) is Some {
        proof {
            lemma_drain_step_decreases(g);
        }
        drain_pass(drain_step(g)->0)
    } else {
        g
    }
}

/// The second pass, repeated until it stops.
pub open spec fn source_pass(g: GemmaView) -> GemmaView
    decreases source_count(g.states, g.transitions),
{
    if source_step(g) is Some {
        proof {
            lemma_source_step_decreases(g);
        }
        source_pass(source_step(g)->0)
    } else {
        g
    }
}

/// Law: the rules are those of the GEMMA norm. A state without outgoing
/// transition tries its destinations in this order (the first that exists
/// and is allowed is taken), and a state other than A1 and A6 without
/// incoming transition tries its origins in this order.
pub proof fn law_rules_of_the_norm()
    ensures
        drain_candidates("A2"@) == seq![("A1"@, "Fin_cycle"@)],
        drain_candidates("A3"@) == seq![("A4"@, "Arret_obtenu"@)],
        drain_candidates("A4"@) == seq![("F1"@, "Remise_en_marche"@), ("A6"@, "Init_position"@), ("A1"@, "Retour_initial"@)],
        drain_candidates("A5"@) == seq![("A6"@, "Reprise_apres_defaut"@), ("A1"@, "Reprise_apres_defaut"@)],
        drain_candidates("A7"@) == seq![("A4"@, "Arret_obtenu"@), ("A6"@, "Quitter_reglage"@)],
        drain_candidates("D1"@) == seq![("D2"@, "EU_relachee"@), ("A5"@, "Reset_direct"@)],
        drain_candidates("D2"@) == seq![("A5"@, "Acquit_defaut"@), ("A1"@, "Acquit_defaut"@)],
        drain_candidates("D3"@) == seq![("F1"@, "Defaut_resolu"@), ("A1"@, "Defaut_resolu"@)],
        drain_candidates("F2"@) == seq![("F1"@, "Preparation_ok"@), ("A1"@, "Fin_preparation"@)],
        drain_candidates("F3"@) == seq![("A1"@, "Cloture_ok"@)],
        drain_candidates("F4"@) == seq![("A6"@, "CI"@), ("A1"@, "CI"@)],
        drain_candidates("F5"@) == seq![("F1"@, "Fin_verif"@), ("F4"@, "Passage_verif_libre"@), ("A1"@, "Fin_verif"@)],
        drain_candidates("F6"@) == seq![("F1"@, "Fin_test"@), ("A7"@, "Retour_reglage"@)],
        source_candidates("A5"@) == seq![("D1"@, "Reset_direct"@), ("D2"@, "Acquit_defaut"@), ("F1"@, "Defaut"@)],
        source_candidates("A7"@) == seq![("A5"@, "Mode_reglage"@), ("A1"@, "Mode_reglage"@)],
        source_candidates("D1"@) == seq![("F1"@, "Defaut"@), ("F6"@, "AU"@)],
        source_candidates("D2"@) == seq![("D1"@, "EU_relachee"@), ("F1"@, "Defaut_direct"@)],
        source_candidates("D3"@) == seq![("F1"@, "Defaut_mineur"@)],
        source_candidates("F2"@) == seq![("A1"@, "Mode_preparation"@)],
        source_candidates("F3"@) == seq![("F1"@, "Mode_cloture"@)],
        source_candidates("F4"@) == seq![("A1"@, "Mode_verif_libre"@), ("F1"@, "Mode_verif_libre"@)],
        source_candidates("F5"@) == seq![("A1"@, "Mode_verif_seq"@), ("F1"@, "Mode_verif_seq"@)],
        source_candidates("F6"@) == seq![("A7"@, "Mode_test"@), ("F1"@, "Mode_test"@)],
        forall|sid: Seq<char>|
            sid != "A2"@ && sid != "A3"@ && sid != "A4"@ && sid != "A5"@ && sid != "A7"@ && sid != "D1"@ && sid != "D2"@
                && sid != "D3"@ && sid != "F2"@ && sid != "F3"@ && sid != "F4"@ && sid != "F5"@ && sid != "F6"@
                ==> #[trigger] drain_candidates(sid).len() == 0,
        forall|sid: Seq<char>|
            sid != "A5"@ && sid != "A7"@ && sid != "D1"@ && sid != "D2"@ && sid != "D3"@ && sid != "F2"@ && sid != "F3"@
                && sid != "F4"@ && sid != "F5"@ && sid != "F6"@ ==> #[trigger] source_candidates(sid).len() == 0,
        forall|x: Seq<char>| #[trigger] is_start_state(x) <==> x == "A1"@ || x == "A6"@,
        forall|a: Seq<char>, b: Seq<char>|
            #[trigger] is_forbidden(a, b) <==> (a == "D1"@ && b == "F1"@) || (a == "A3"@ && b == "F1"@) || (a == "A7"@
                && b == "F1"@) || (a == "A1"@ && b == "F6"@),
{
    reveal_strlit("A1");
    reveal_strlit("A2");
    reveal_strlit("A3");
    reveal_strlit("A4");
    reveal_strlit("A5");
    reveal_strlit("A6");
    reveal_strlit("A7");
    reveal_strlit("AU");
    reveal_strlit("Acquit_defaut");
    reveal_strlit("Arret_obtenu");
    reveal_strlit("CI");
    reveal_strlit("Cloture_ok");
    reveal_strlit("D1");
    reveal_strlit("D2");
    reveal_strlit("D3");
    reveal_strlit("Defaut");
    reveal_strlit("Defaut_direct");
    reveal_strlit("Defaut_mineur");
    reveal_strlit("Defaut_resolu");
    reveal_strlit("EU_relachee");
    reveal_strlit("F1");
    reveal_strlit("F2");
    reveal_strlit("F3");
    reveal_strlit("F4");
    reveal_strlit("F5");
    reveal_strlit("F6");
    reveal_strlit("Fin_cycle");
    reveal_strlit("Fin_preparation");
    reveal_strlit("Fin_test");
    reveal_strlit("Fin_verif");
    reveal_strlit("Init_position");
    reveal_strlit("Mode_cloture");
    reveal_strlit("Mode_preparation");
    reveal_strlit("Mode_reglage");
    reveal_strlit("Mode_test");
    reveal_strlit("Mode_verif_libre");
    reveal_strlit("Mode_verif_seq");
    reveal_strlit("Passage_verif_libre");
    reveal_strlit("Preparation_ok");
    reveal_strlit("Quitter_reglage");
    reveal_strlit("Remise_en_marche");
    reveal_strlit("Reprise_apres_defaut");
    reveal_strlit("Reset_direct");
    reveal_strlit("Retour_initial");
    reveal_strlit("Retour_reglage");
    assert("A2"@ != "A3"@) by {
        assert("A2"@[1] != "A3"@[1]);
    }
    assert("A2"@ != "A4"@) by {
        assert("A2"@[1] != "A4"@[1]);
    }
    assert("A2"@ != "A5"@) by {
        assert("A2"@[1] != "A5"@[1]);
    }
    assert("A2"@ != "A7"@) by {
        assert("A2"@[1] != "A7"@[1]);
    }
    assert("A2"@ != "D1"@) by {
        assert("A2"@[0] != "D1"@[0]);
    }
    assert("A2"@ != "D2"@) by {
        assert("A2"@[0] != "D2"@[0]);
    }
    assert("A2"@ != "D3"@) by {
        assert("A2"@[0] != "D3"@[0]);
    }
    assert("A2"@ != "F2"@) by {
        assert("A2"@[0] != "F2"@[0]);
    }
    assert("A2"@ != "F3"@) by {
        assert("A2"@[0] != "F3"@[0]);
    }
    assert("A2"@ != "F4"@) by {
        assert("A2"@[0] != "F4"@[0]);
    }
    assert("A2"@ != "F5"@) by {
        assert("A2"@[0] != "F5"@[0]);
    }
    assert("A2"@ != "F6"@) by {
        assert("A2"@[0] != "F6"@[0]);
    }
    assert("A3"@ != "A4"@) by {
        assert("A3"@[1] != "A4"@[1]);
    }
    assert("A3"@ != "A5"@) by {
        assert("A3"@[1] != "A5"@[1]);
    }
    assert("A3"@ != "A7"@) by {
        assert("A3"@[1] != "A7"@[1]);
    }
    assert("A3"@ != "D1"@) by {
        assert("A3"@[0] != "D1"@[0]);
    }
    assert("A3"@ != "D2"@) by {
        assert("A3"@[0] != "D2"@[0]);
    }
    assert("A3"@ != "D3"@) by {
        assert("A3"@[0] != "D3"@[0]);
    }
    assert("A3"@ != "F2"@) by {
        assert("A3"@[0] != "F2"@[0]);
    }
    assert("A3"@ != "F3"@) by {
        assert("A3"@[0] != "F3"@[0]);
    }
    assert("A3"@ != "F4"@) by {
        assert("A3"@[0] != "F4"@[0]);
    }
    assert("A3"@ != "F5"@) by {
        assert("A3"@[0] != "F5"@[0]);
    }
    assert("A3"@ != "F6"@) by {
        assert("A3"@[0] != "F6"@[0]);
    }
    assert("A4"@ != "A5"@) by {
        assert("A4"@[1] != "A5"@[1]);
    }
    assert("A4"@ != "A7"@) by {
        assert("A4"@[1] != "A7"@[1]);
    }
    assert("A4"@ != "D1"@) by {
        assert("A4"@[0] != "D1"@[0]);
    }
    assert("A4"@ != "D2"@) by {
        assert("A4"@[0] != "D2"@[0]);
    }
    assert("A4"@ != "D3"@) by {
        assert("A4"@[0] != "D3"@[0]);
    }
    assert("A4"@ != "F2"@) by {
        assert("A4"@[0] != "F2"@[0]);
    }
    assert("A4"@ != "F3"@) by {
        assert("A4"@[0] != "F3"@[0]);
    }
    assert("A4"@ != "F4"@) by {
        assert("A4"@[0] != "F4"@[0]);
    }
    assert("A4"@ != "F5"@) by {
        assert("A4"@[0] != "F5"@[0]);
    }
    assert("A4"@ != "F6"@) by {
        assert("A4"@[0] != "F6"@[0]);
    }
    assert("A5"@ != "A7"@) by {
        assert("A5"@[1] != "A7"@[1]);
    }
    assert("A5"@ != "D1"@) by {
        assert("A5"@[0] != "D1"@[0]);
    }
    assert("A5"@ != "D2"@) by {
        assert("A5"@[0] != "D2"@[0]);
    }
    assert("A5"@ != "D3"@) by {
        assert("A5"@[0] != "D3"@[0]);
    }
    assert("A5"@ != "F2"@) by {
        assert("A5"@[0] != "F2"@[0]);
    }
    assert("A5"@ != "F3"@) by {
        assert("A5"@[0] != "F3"@[0]);
    }
    assert("A5"@ != "F4"@) by {
        assert("A5"@[0] != "F4"@[0]);
    }
    assert("A5"@ != "F5"@) by {
        assert("A5"@[0] != "F5"@[0]);
    }
    assert("A5"@ != "F6"@) by {
        assert("A5"@[0] != "F6"@[0]);
    }
    assert("A7"@ != "D1"@) by {
        assert("A7"@[0] != "D1"@[0]);
    }
    assert("A7"@ != "D2"@) by {
        assert("A7"@[0] != "D2"@[0]);
    }
    assert("A7"@ != "D3"@) by {
        assert("A7"@[0] != "D3"@[0]);
    }
    assert("A7"@ != "F2"@) by {
        assert("A7"@[0] != "F2"@[0]);
    }
    assert("A7"@ != "F3"@) by {
        assert("A7"@[0] != "F3"@[0]);
    }
    assert("A7"@ != "F4"@) by {
        assert("A7"@[0] != "F4"@[0]);
    }
    assert("A7"@ != "F5"@) by {
        assert("A7"@[0] != "F5"@[0]);
    }
    assert("A7"@ != "F6"@) by {
        assert("A7"@[0] != "F6"@[0]);
    }
    assert("D1"@ != "D2"@) by {
        assert("D1"@[1] != "D2"@[1]);
    }
    assert("D1"@ != "D3"@) by {
        assert("D1"@[1] != "D3"@[1]);
    }
    assert("D1"@ != "F2"@) by {
        assert("D1"@[0] != "F2"@[0]);
    }
    assert("D1"@ != "F3"@) by {
        assert("D1"@[0] != "F3"@[0]);
    }
    assert("D1"@ != "F4"@) by {
        assert("D1"@[0] != "F4"@[0]);
    }
    assert("D1"@ != "F5"@) by {
        assert("D1"@[0] != "F5"@[0]);
    }
    assert("D1"@ != "F6"@) by {
        assert("D1"@[0] != "F6"@[0]);
    }
    assert("D2"@ != "D3"@) by {
        assert("D2"@[1] != "D3"@[1]);
    }
    assert("D2"@ != "F2"@) by {
        assert("D2"@[0] != "F2"@[0]);
    }
    assert("D2"@ != "F3"@) by {
        assert("D2"@[0] != "F3"@[0]);
    }
    assert("D2"@ != "F4"@) by {
        assert("D2"@[0] != "F4"@[0]);
    }
    assert("D2"@ != "F5"@) by {
        assert("D2"@[0] != "F5"@[0]);
    }
    assert("D2"@ != "F6"@) by {
        assert("D2"@[0] != "F6"@[0]);
    }
    assert("D3"@ != "F2"@) by {
        assert("D3"@[0] != "F2"@[0]);
    }
    assert("D3"@ != "F3"@) by {
        assert("D3"@[0] != "F3"@[0]);
    }
    assert("D3"@ != "F4"@) by {
        assert("D3"@[0] != "F4"@[0]);
    }
    assert("D3"@ != "F5"@) by {
        assert("D3"@[0] != "F5"@[0]);
    }
    assert("D3"@ != "F6"@) by {
        assert("D3"@[0] != "F6"@[0]);
    }
    assert("F2"@ != "F3"@) by {
        assert("F2"@[1] != "F3"@[1]);
    }
    assert("F2"@ != "F4"@) by {
        assert("F2"@[1] != "F4"@[1]);
    }
    assert("F2"@ != "F5"@) by {
        assert("F2"@[1] != "F5"@[1]);
    }
    assert("F2"@ != "F6"@) by {
        assert("F2"@[1] != "F6"@[1]);
    }
    assert("F3"@ != "F4"@) by {
        assert("F3"@[1] != "F4"@[1]);
    }
    assert("F3"@ != "F5"@) by {
        assert("F3"@[1] != "F5"@[1]);
    }
    assert("F3"@ != "F6"@) by {
        assert("F3"@[1] != "F6"@[1]);
    }
    assert("F4"@ != "F5"@) by {
        assert("F4"@[1] != "F5"@[1]);
    }
    assert("F4"@ != "F6"@) by {
        assert("F4"@[1] != "F6"@[1]);
    }
    assert("F5"@ != "F6"@) by {
        assert("F5"@[1] != "F6"@[1]);
    }
}

/// The GEMMA once its open circuits are closed: both passes in turn.
pub open spec fn closed_gemma(g: GemmaView) -> GemmaView {
    source_pass(drain_pass(g))
}

/// The identifiers of a sequence of transitions.
pub open spec fn transition_ids(ts: Seq<GemmaTransitionView>) -> Seq<u32>
    decreases ts.len(),
{
    if ts.len() == 0 {
        Seq::empty()
    } else {
        transition_ids(ts.drop_last()).push(ts.last().id)
    }
}

// ── Lemmas ────────────────────────────────────────────────────────────────────

pub proof fn lemma_first_drain_in(all: Seq<GemmaStateView>, prefix: Seq<GemmaStateView>, ts: Seq<GemmaTransitionView>)
    ensures
        -1 <= first_drain_in(all, prefix, ts) < prefix.len(),
        first_drain_in(all, prefix, ts) >= 0 ==> closable_drain(all, ts, prefix[first_drain_in(all, prefix, ts)]),
        first_drain_in(all, prefix, ts) == -1 ==> forall|j: int| 0 <= j < prefix.len() ==> !closable_drain(all, ts, #[trigger] prefix[j]),
    decreases prefix.len(),
{
    if prefix.len() > 0 {
        lemma_first_drain_in(all, prefix.drop_last(), ts);
        if first_drain_in(all, prefix, ts) == -1 {
            assert forall|j: int| 0 <= j < prefix.len() implies !closable_drain(all, ts, #[trigger] prefix[j]) by {
                if j < prefix.len() - 1 {
                    assert(prefix.drop_last()[j] == prefix[j]);
                }
            }
        }
    }
}

pub proof fn lemma_first_source_in(all: Seq<GemmaStateView>, prefix: Seq<GemmaStateView>, ts: Seq<GemmaTransitionView>)
    ensures
        -1 <= first_source_in(all, prefix, ts) < prefix.len(),
        first_source_in(all, prefix, ts) >= 0 ==> closable_source(all, ts, prefix[first_source_in(all, prefix, ts)]),
        first_source_in(all, prefix, ts) == -1 ==> forall|j: int| 0 <= j < prefix.len() ==> !closable_source(all, ts, #[trigger] prefix[j]),
    decreases prefix.len(),
{
    if prefix.len() > 0 {
        lemma_first_source_in(all, prefix.drop_last(), ts);
        if first_source_in(all, prefix, ts) == -1 {
            assert forall|j: int| 0 <= j < prefix.len() implies !closable_source(all, ts, #[trigger] prefix[j]) by {
                if j < prefix.len() - 1 {
                    assert(prefix.drop_last()[j] == prefix[j]);
                }
            }
        }
    }
}

pub proof fn lemma_first_drain(states: Seq<GemmaStateView>, ts: Seq<GemmaTransitionView>)
    ensures
        -1 <= first_drain(states, ts) < states.len(),
        first_drain(states, ts) >= 0 ==> closable_drain(states, ts, states[first_drain(states, ts)]),
        first_drain(states, ts) == -1 ==> forall|j: int| 0 <= j < states.len() ==> !closable_drain(states, ts, #[trigger] states[j]),
{
    lemma_first_drain_in(states, states, ts);
}

pub proof fn lemma_first_source(states: Seq<GemmaStateView>, ts: Seq<GemmaTransitionView>)
    ensures
        -1 <= first_source(states, ts) < states.len(),
        first_source(states, ts) >= 0 ==> closable_source(states, ts, states[first_source(states, ts)]),
        first_source(states, ts) == -1 ==> forall|j: int| 0 <= j < states.len() ==> !closable_source(states, ts, #[trigger] states[j]),
{
    lemma_first_source_in(states, states, ts);
}

pub proof fn lemma_first_usable_target(states: Seq<GemmaStateView>, sid: Seq<char>, cands: Seq<(Seq<char>, Seq<char>)>)
    ensures
        -1 <= first_usable_target(states, sid, cands) < cands.len(),
        first_usable_target(states, sid, cands) >= 0 ==> !is_forbidden(sid, cands[first_usable_target(states, sid, cands)].0)
            && is_state_name(states, cands[first_usable_target(states, sid, cands)].0),
    decreases cands.len(),
{
    if cands.len() > 0 {
        lemma_first_usable_target(states, sid, cands.drop_last());
    }
}

pub proof fn lemma_first_usable_source(states: Seq<GemmaStateView>, sid: Seq<char>, cands: Seq<(Seq<char>, Seq<char>)>)
    ensures
        -1 <= first_usable_source(states, sid, cands) < cands.len(),
        first_usable_source(states, sid, cands) >= 0 ==> !is_forbidden(cands[first_usable_source(states, sid, cands)].0, sid)
            && is_state_name(states, cands[first_usable_source(states, sid, cands)].0),
    decreases cands.len(),
{
    if cands.len() > 0 {
        lemma_first_usable_source(states, sid, cands.drop_last());
    }
}

/// Adding a transition never creates a drain state, and removes the drain
/// state it leaves from.
proof fn lemma_drain_count_push(states: Seq<GemmaStateView>, ts: Seq<GemmaTransitionView>, t: GemmaTransitionView, d: int)
    requires
        0 <= d < states.len(),
        is_drain(ts, states[d]),
        states[d].id == t.from,
    ensures
        drain_count(states, ts.push(t)) < drain_count(states, ts),
    decreases states.len(),
{
    lemma_drain_count_push_le(states.drop_last(), ts, t);
    if d < states.len() - 1 {
        assert(states.drop_last()[d] == states[d]);
        lemma_drain_count_push(states.drop_last(), ts, t, d);
    }
    let l = states.last();
    if is_drain(ts.push(t), l) {
        assert forall|k: int| 0 <= k < ts.len() implies #[trigger] ts[k].from != l.id by {
            assert(ts.push(t)[k] == ts[k]);
        }
    }
    if d == states.len() - 1 {
        assert(ts.push(t)[ts.len() as int].from == l.id);
    }
}

proof fn lemma_drain_count_push_le(states: Seq<GemmaStateView>, ts: Seq<GemmaTransitionView>, t: GemmaTransitionView)
    ensures
        drain_count(states, ts.push(t)) <= drain_count(states, ts),
    decreases states.len(),
{
    if states.len() > 0 {
        lemma_drain_count_push_le(states.drop_last(), ts, t);
        let l = states.last();
        if is_drain(ts.push(t), l) {
            assert forall|k: int| 0 <= k < ts.len() implies #[trigger] ts[k].from != l.id by {
                assert(ts.push(t)[k] == ts[k]);
            }
        }
    }
}

/// Adding a transition never creates a source state, and removes the source
/// state it reaches.
proof fn lemma_source_count_push(states: Seq<GemmaStateView>, ts: Seq<GemmaTransitionView>, t: GemmaTransitionView, d: int)
    requires
        0 <= d < states.len(),
        is_source(ts, states[d]),
        states[d].id == t.to,
    ensures
        source_count(states, ts.push(t)) < source_count(states, ts),
    decreases states.len(),
{
    lemma_source_count_push_le(states.drop_last(), ts, t);
    if d < states.len() - 1 {
        assert(states.drop_last()[d] == states[d]);
        lemma_source_count_push(states.drop_last(), ts, t, d);
    }
    let l = states.last();
    if is_source(ts.push(t), l) {
        assert forall|k: int| 0 <= k < ts.len() implies #[trigger] ts[k].to != l.id by {
            assert(ts.push(t)[k] == ts[k]);
        }
    }
    if d == states.len() - 1 {
        assert(ts.push(t)[ts.len() as int].to == l.id);
    }
}

proof fn lemma_source_count_push_le(states: Seq<GemmaStateView>, ts: Seq<GemmaTransitionView>, t: GemmaTransitionView)
    ensures
        source_count(states, ts.push(t)) <= source_count(states, ts),
    decreases states.len(),
{
    if states.len() > 0 {
        lemma_source_count_push_le(states.drop_last(), ts, t);
        let l = states.last();
        if is_source(ts.push(t), l) {
            assert forall|k: int| 0 <= k < ts.len() implies #[trigger] ts[k].to != l.id by {
                assert(ts.push(t)[k] == ts[k]);
            }
        }
    }
}

pub proof fn lemma_drain_count_le(states: Seq<GemmaStateView>, ts: Seq<GemmaTransitionView>)
    ensures
        drain_count(states, ts) <= states.len(),
    decreases states.len(),
{
    if states.len() > 0 {
        lemma_drain_count_le(states.drop_last(), ts);
    }
}

pub proof fn lemma_source_count_le(states: Seq<GemmaStateView>, ts: Seq<GemmaTransitionView>)
    ensures
        source_count(states, ts) <= states.len(),
    decreases states.len(),
{
    if states.len() > 0 {
        lemma_source_count_le(states.drop_last(), ts);
    }
}

/// Each step of the first pass removes a drain state.
pub proof fn lemma_drain_step_decreases(g: GemmaView)
    requires
        drain_step(g) is Some,
    ensures
        drain_count((drain_step(g)->0).states, (drain_step(g)->0).transitions) < drain_count(
            g.states,
            g.transitions,
        ),
        (drain_step(g)->0).states == g.states,
{
    lemma_first_drain(g.states, g.transitions);
    let d = first_drain(g.states, g.transitions);
    let g2 = drain_step(g)->0;
    let t = g2.transitions.last();
    assert(g2.transitions =~= g.transitions.push(t));
    lemma_drain_count_push(g.states, g.transitions, t, d);
}

/// Each step of the second pass removes a source state.
pub proof fn lemma_source_step_decreases(g: GemmaView)
    requires
        source_step(g) is Some,
    ensures
        source_count((source_step(g)->0).states, (source_step(g)->0).transitions) < source_count(
            g.states,
            g.transitions,
        ),
        (source_step(g)->0).states == g.states,
{
    lemma_first_source(g.states, g.transitions);
    let d = first_source(g.states, g.transitions);
    let g2 = source_step(g)->0;
    let t = g2.transitions.last();
    assert(g2.transitions =~= g.transitions.push(t));
    lemma_source_count_push(g.states, g.transitions, t, d);
}

/// A transition added by one step joins two existing states and is allowed.
pub open spec fn allowed_addition(states: Seq<GemmaStateView>, t: GemmaTransitionView) -> bool {
    &&& !is_forbidden(t.from, t.to)
    &&& is_state_name(states, t.from)
    &&& is_state_name(states, t.to)
}

/// `h` only appends allowed transitions to `g`.
pub open spec fn extends_allowed(g: GemmaView, h: GemmaView) -> bool {
    &&& h.states == g.states
    &&& h.name == g.name
    &&& h.description == g.description
    &&& h.transitions.len() >= g.transitions.len()
    &&& h.transitions.take(g.transitions.len() as int) == g.transitions
    &&& forall|k: int| g.transitions.len() <= k < h.transitions.len() ==> allowed_addition(g.states, #[trigger] h.transitions[k])
    &&& h.next_trans_id == g.next_trans_id + (h.transitions.len() - g.transitions.len())
    &&& forall|k: int| g.transitions.len() <= k < h.transitions.len() ==>
        (#[trigger] h.transitions[k]).id == g.next_trans_id + (k - g.transitions.len())
}

proof fn lemma_extends_trans(a: GemmaView, b: GemmaView, c: GemmaView)
    requires
        extends_allowed(a, b),
        extends_allowed(b, c),
    ensures
        extends_allowed(a, c),
{
    assert(c.transitions.take(a.transitions.len() as int) =~= b.transitions.take(a.transitions.len() as int));
    assert forall|k: int| a.transitions.len() <= k < c.transitions.len() implies allowed_addition(a.states, #[trigger] c.transitions[k]) && c.transitions[k].id == a.next_trans_id + (k - a.transitions.len()) by {
        if k < b.transitions.len() {
            assert(c.transitions.take(b.transitions.len() as int)[k] == b.transitions[k]);
        }
    }
}

proof fn lemma_drain_step_extends(g: GemmaView)
    requires
        drain_step(g) is Some,
        g.next_trans_id < u32::MAX,
    ensures
        extends_allowed(g, drain_step(g)->0),
{
    lemma_first_drain(g.states, g.transitions);
    let d = first_drain(g.states, g.transitions);
    let sid = g.states[d].id;
    lemma_first_usable_target(g.states, sid, drain_candidates(sid));
    let h = drain_step(g)->0;
    assert(h.transitions.take(g.transitions.len() as int) =~= g.transitions);
    assert(is_state_name(g.states, sid));
}

proof fn lemma_source_step_extends(g: GemmaView)
    requires
        source_step(g) is Some,
        g.next_trans_id < u32::MAX,
    ensures
        extends_allowed(g, source_step(g)->0),
{
    lemma_first_source(g.states, g.transitions);
    let d = first_source(g.states, g.transitions);
    let sid = g.states[d].id;
    lemma_first_usable_source(g.states, sid, source_candidates(sid));
    let h = source_step(g)->0;
    assert(h.transitions.take(g.transitions.len() as int) =~= g.transitions);
    assert(is_state_name(g.states, sid));
}

proof fn lemma_extends_refl(g: GemmaView)
    ensures
        extends_allowed(g, g),
{
    assert(g.transitions.take(g.transitions.len() as int) =~= g.transitions);
}

/// The first pass only appends allowed transitions.
pub proof fn lemma_drain_pass_extends(g: GemmaView)
    requires
        g.next_trans_id + drain_count(g.states, g.transitions) < u32::MAX,
    ensures
        extends_allowed(g, drain_pass(g)),
        drain_pass(g).next_trans_id <= g.next_trans_id + drain_count(g.states, g.transitions),
    decreases drain_count(g.states, g.transitions),
{
    if drain_step(g) is Some {
        lemma_drain_step_decreases(g);
        lemma_drain_step_extends(g);
        let h = drain_step(g)->0;
        lemma_drain_pass_extends(h);
        lemma_extends_trans(g, h, drain_pass(h));
    } else {
        lemma_extends_refl(g);
    }
}

/// The second pass only appends allowed transitions.
pub proof fn lemma_source_pass_extends(g: GemmaView)
    requires
        g.next_trans_id + source_count(g.states, g.transitions) < u32::MAX,
    ensures
        extends_allowed(g, source_pass(g)),
        source_pass(g).next_trans_id <= g.next_trans_id + source_count(g.states, g.transitions),
    decreases source_count(g.states, g.transitions),
{
    if source_step(g) is Some {
        lemma_source_step_decreases(g);
        lemma_source_step_extends(g);
        let h = source_step(g)->0;
        lemma_source_pass_extends(h);
        lemma_extends_trans(g, h, source_pass(h));
    } else {
        lemma_extends_refl(g);
    }
}

/// Law: closing the open circuits keeps the states and every existing
/// transition, and only adds transitions that join two existing states and are
/// not forbidden (D1→F1, A3→F1, A7→F1, A1→F6).
pub proof fn law_closing_adds_only_allowed(g: GemmaView)
    requires
        g.next_trans_id + 2 * g.states.len() < u32::MAX,
    ensures
        extends_allowed(g, closed_gemma(g)),
{
    lemma_drain_count_le(g.states, g.transitions);
    lemma_drain_pass_extends(g);
    let h = drain_pass(g);
    lemma_source_count_le(h.states, h.transitions);
    lemma_source_pass_extends(h);
    lemma_extends_trans(g, h, source_pass(h));
}

/// Law: one step of the first pass appends one transition, from the first
/// state (in the order of the states) that has no outgoing transition and a
/// usable candidate, to the first candidate of its rule whose state exists
/// and whose link is not forbidden, with that candidate's condition; every
/// earlier state without outgoing transition has no usable candidate.
pub proof fn law_drain_step_takes_first_usable(g: GemmaView)
    requires
        drain_step(g) is Some,
        g.next_trans_id < u32::MAX,
    ensures
        ({
            let h = drain_step(g)->0;
            let t = h.transitions.last();
            let cands = drain_candidates(t.from);
            &&& h.transitions == g.transitions.push(t)
            &&& exists|d: int| 0 <= d < g.states.len() && #[trigger] g.states[d].id == t.from && !has_outgoing(g.transitions, t.from)
                && forall|e: int| 0 <= e < d && !has_outgoing(g.transitions, #[trigger] g.states[e].id) ==> forall|c: int|
                    0 <= c < drain_candidates(g.states[e].id).len() ==> is_forbidden(g.states[e].id, #[trigger] drain_candidates(g.states[e].id)[c].0)
                        || !is_state_name(g.states, drain_candidates(g.states[e].id)[c].0)
            &&& exists|c: int| 0 <= c < cands.len() && #[trigger] cands[c].0 == t.to && expr_from_text(cands[c].1) == t.condition
                && !is_forbidden(t.from, t.to) && is_state_name(g.states, t.to)
                && forall|c2: int| 0 <= c2 < c ==> is_forbidden(t.from, #[trigger] cands[c2].0) || !is_state_name(g.states, cands[c2].0)
        }),
{
    lemma_first_drain(g.states, g.transitions);
    let d = first_drain(g.states, g.transitions);
    let sid = g.states[d].id;
    let cands = drain_candidates(sid);
    lemma_first_usable_target(g.states, sid, cands);
    let c = first_usable_target(g.states, sid, cands);
    let h = drain_step(g)->0;
    assert(h.transitions == g.transitions.push(h.transitions.last()));
    lemma_first_usable_target_earlier(g.states, sid, cands);
    lemma_first_drain_in_earlier(g.states, g.states, g.transitions);
    assert forall|e: int| 0 <= e < d && !has_outgoing(g.transitions, #[trigger] g.states[e].id) implies forall|c: int|
        0 <= c < drain_candidates(g.states[e].id).len() ==> is_forbidden(g.states[e].id, #[trigger] drain_candidates(g.states[e].id)[c].0)
            || !is_state_name(g.states, drain_candidates(g.states[e].id)[c].0) by {
        assert(!closable_drain(g.states, g.transitions, g.states[e]));
        let se = g.states[e].id;
        lemma_first_usable_target_none(g.states, se, drain_candidates(se));
    }
    let t = h.transitions.last();
    assert(t.from == sid && t.to == cands[c].0 && t.condition == expr_from_text(cands[c].1));
    assert(closable_drain(g.states, g.transitions, g.states[d]));
    assert(g.states[d].id == t.from && !has_outgoing(g.transitions, t.from));
    assert(forall|c2: int| 0 <= c2 < c ==> is_forbidden(t.from, #[trigger] cands[c2].0) || !is_state_name(g.states, cands[c2].0));
    assert(cands[c].0 == t.to && expr_from_text(cands[c].1) == t.condition);
}

/// Law: one step of the second pass appends one transition, to the first
/// state other than A1 and A6 (in the order of the states) that has no
/// incoming transition and a usable candidate, from the first candidate of its
/// rule whose state exists and whose link is not forbidden, with that
/// candidate's condition; every earlier such state has no usable candidate.
pub proof fn law_source_step_takes_first_usable(g: GemmaView)
    requires
        source_step(g) is Some,
        g.next_trans_id < u32::MAX,
    ensures
        ({
            let h = source_step(g)->0;
            let t = h.transitions.last();
            let cands = source_candidates(t.to);
            &&& h.transitions == g.transitions.push(t)
            &&& exists|d: int| 0 <= d < g.states.len() && #[trigger] g.states[d].id == t.to && !is_start_state(t.to)
                && !has_incoming(g.transitions, t.to)
                && forall|e: int| 0 <= e < d && is_source(g.transitions, #[trigger] g.states[e]) ==> forall|c: int|
                    0 <= c < source_candidates(g.states[e].id).len() ==> is_forbidden(#[trigger] source_candidates(g.states[e].id)[c].0, g.states[e].id)
                        || !is_state_name(g.states, source_candidates(g.states[e].id)[c].0)
            &&& exists|c: int| 0 <= c < cands.len() && #[trigger] cands[c].0 == t.from && expr_from_text(cands[c].1) == t.condition
                && !is_forbidden(t.from, t.to) && is_state_name(g.states, t.from)
                && forall|c2: int| 0 <= c2 < c ==> is_forbidden(#[trigger] cands[c2].0, t.to) || !is_state_name(g.states, cands[c2].0)
        }),
{
    lemma_first_source(g.states, g.transitions);
    let d = first_source(g.states, g.transitions);
    let sid = g.states[d].id;
    let cands = source_candidates(sid);
    lemma_first_usable_source(g.states, sid, cands);
    let h = source_step(g)->0;
    assert(h.transitions == g.transitions.push(h.transitions.last()));
    lemma_first_usable_source_earlier(g.states, sid, cands);
    lemma_first_source_in_earlier(g.states, g.states, g.transitions);
    assert forall|e: int| 0 <= e < d && is_source(g.transitions, #[trigger] g.states[e]) implies forall|c: int|
        0 <= c < source_candidates(g.states[e].id).len() ==> is_forbidden(#[trigger] source_candidates(g.states[e].id)[c].0, g.states[e].id)
            || !is_state_name(g.states, source_candidates(g.states[e].id)[c].0) by {
        assert(!closable_source(g.states, g.transitions, g.states[e]));
        let se = g.states[e].id;
        lemma_first_usable_source_none(g.states, se, source_candidates(se));
    }
    let c = first_usable_source(g.states, sid, cands);
    let t = h.transitions.last();
    assert(t.to == sid && t.from == cands[c].0 && t.condition == expr_from_text(cands[c].1));
    assert(closable_source(g.states, g.transitions, g.states[d]));
    assert(g.states[d].id == t.to && !has_incoming(g.transitions, t.to));
    assert(forall|c2: int| 0 <= c2 < c ==> is_forbidden(#[trigger] cands[c2].0, t.to) || !is_state_name(g.states, cands[c2].0));
    assert(cands[c].0 == t.from && expr_from_text(cands[c].1) == t.condition);
}

proof fn lemma_first_usable_target_earlier(states: Seq<GemmaStateView>, sid: Seq<char>, cands: Seq<(Seq<char>, Seq<char>)>)
    ensures
        forall|c: int| 0 <= c < cands.len() && (first_usable_target(states, sid, cands) == -1 || c < first_usable_target(states, sid, cands))
            ==> is_forbidden(sid, #[trigger] cands[c].0) || !is_state_name(states, cands[c].0),
    decreases cands.len(),
{
    if cands.len() > 0 {
        let p = cands.drop_last();
        lemma_first_usable_target_earlier(states, sid, p);
        lemma_first_usable_target(states, sid, p);
        assert forall|c: int| 0 <= c < cands.len() && (first_usable_target(states, sid, cands) == -1 || c < first_usable_target(states, sid, cands))
            implies is_forbidden(sid, #[trigger] cands[c].0) || !is_state_name(states, cands[c].0) by {
            if c < p.len() {
                assert(p[c] == cands[c]);
            }
        }
    }
}

proof fn lemma_first_usable_source_earlier(states: Seq<GemmaStateView>, sid: Seq<char>, cands: Seq<(Seq<char>, Seq<char>)>)
    ensures
        forall|c: int| 0 <= c < cands.len() && (first_usable_source(states, sid, cands) == -1 || c < first_usable_source(states, sid, cands))
            ==> is_forbidden(#[trigger] cands[c].0, sid) || !is_state_name(states, cands[c].0),
    decreases cands.len(),
{
    if cands.len() > 0 {
        let p = cands.drop_last();
        lemma_first_usable_source_earlier(states, sid, p);
        lemma_first_usable_source(states, sid, p);
        assert forall|c: int| 0 <= c < cands.len() && (first_usable_source(states, sid, cands) == -1 || c < first_usable_source(states, sid, cands))
            implies is_forbidden(#[trigger] cands[c].0, sid) || !is_state_name(states, cands[c].0) by {
            if c < p.len() {
                assert(p[c] == cands[c]);
            }
        }
    }
}

proof fn lemma_first_usable_target_none(states: Seq<GemmaStateView>, sid: Seq<char>, cands: Seq<(Seq<char>, Seq<char>)>)
    requires
        first_usable_target(states, sid, cands) < 0,
    ensures
        forall|c: int| 0 <= c < cands.len() ==> is_forbidden(sid, #[trigger] cands[c].0) || !is_state_name(states, cands[c].0),
{
    lemma_first_usable_target_earlier(states, sid, cands);
    lemma_first_usable_target(states, sid, cands);
}

proof fn lemma_first_usable_source_none(states: Seq<GemmaStateView>, sid: Seq<char>, cands: Seq<(Seq<char>, Seq<char>)>)
    requires
        first_usable_source(states, sid, cands) < 0,
    ensures
        forall|c: int| 0 <= c < cands.len() ==> is_forbidden(#[trigger] cands[c].0, sid) || !is_state_name(states, cands[c].0),
{
    lemma_first_usable_source_earlier(states, sid, cands);
    lemma_first_usable_source(states, sid, cands);
}

proof fn lemma_first_drain_in_earlier(all: Seq<GemmaStateView>, prefix: Seq<GemmaStateView>, ts: Seq<GemmaTransitionView>)
    ensures
        forall|e: int| 0 <= e < prefix.len() && (first_drain_in(all, prefix, ts) == -1 || e < first_drain_in(all, prefix, ts))
            ==> !closable_drain(all, ts, #[trigger] prefix[e]),
    decreases prefix.len(),
{
    if prefix.len() > 0 {
        let p = prefix.drop_last();
        lemma_first_drain_in_earlier(all, p, ts);
        lemma_first_drain_in(all, p, ts);
        assert forall|e: int| 0 <= e < prefix.len() && (first_drain_in(all, prefix, ts) == -1 || e < first_drain_in(all, prefix, ts))
            implies !closable_drain(all, ts, #[trigger] prefix[e]) by {
            if e < p.len() {
                assert(p[e] == prefix[e]);
            }
        }
    }
}

proof fn lemma_first_source_in_earlier(all: Seq<GemmaStateView>, prefix: Seq<GemmaStateView>, ts: Seq<GemmaTransitionView>)
    ensures
        forall|e: int| 0 <= e < prefix.len() && (first_source_in(all, prefix, ts) == -1 || e < first_source_in(all, prefix, ts))
            ==> !closable_source(all, ts, #[trigger] prefix[e]),
    decreases prefix.len(),
{
    if prefix.len() > 0 {
        let p = prefix.drop_last();
        lemma_first_source_in_earlier(all, p, ts);
        lemma_first_source_in(all, p, ts);
        assert forall|e: int| 0 <= e < prefix.len() && (first_source_in(all, prefix, ts) == -1 || e < first_source_in(all, prefix, ts))
            implies !closable_source(all, ts, #[trigger] prefix[e]) by {
            if e < p.len() {
                assert(p[e] == prefix[e]);
            }
        }
    }
}

/// Law: the closing ends only when no open state can be closed: afterwards,
/// no state without outgoing transition has a usable drain rule, and no state
/// other than A1 and A6 without incoming transition has a usable source rule.
pub proof fn law_closing_settles(g: GemmaView)
    ensures
        forall|j: int|
            0 <= j < closed_gemma(g).states.len() ==> !closable_drain(
                closed_gemma(g).states,
                closed_gemma(g).transitions,
                #[trigger] closed_gemma(g).states[j],
            ) && !closable_source(closed_gemma(g).states, closed_gemma(g).transitions, closed_gemma(g).states[j]),
{
    let h = drain_pass(g);
    lemma_drain_pass_settles(g);
    lemma_source_pass_keeps_drains_closed(h);
    lemma_source_pass_settles(h);
    let c = source_pass(h);
    lemma_first_source(c.states, c.transitions);
    let d = first_source(c.states, c.transitions);
    if d >= 0 {
        let sid = c.states[d].id;
        assert(closable_source(c.states, c.transitions, c.states[d]));
        assert(first_usable_source(c.states, sid, source_candidates(sid)) >= 0);
    }
}

/// After the first pass no state can be closed by a drain rule.
proof fn lemma_drain_pass_settles(g: GemmaView)
    ensures
        forall|j: int|
            0 <= j < drain_pass(g).states.len() ==> !closable_drain(
                drain_pass(g).states,
                drain_pass(g).transitions,
                #[trigger] drain_pass(g).states[j],
            ),
    decreases drain_count(g.states, g.transitions),
{
    if drain_step(g) is Some {
        lemma_drain_step_decreases(g);
        lemma_drain_pass_settles(drain_step(g)->0);
        assert(drain_pass(g) == drain_pass(drain_step(g)->0));
    } else {
        lemma_first_drain(g.states, g.transitions);
        assert(drain_pass(g) == g);
        let d = first_drain(g.states, g.transitions);
        if d >= 0 {
            let sid = g.states[d].id;
            assert(closable_drain(g.states, g.transitions, g.states[d]));
            assert(first_usable_target(g.states, sid, drain_candidates(sid)) >= 0);
        }
    }
}

proof fn lemma_source_pass_settles(g: GemmaView)
    ensures
        source_step(source_pass(g)) is None,
    decreases source_count(g.states, g.transitions),
{
    if source_step(g) is Some {
        lemma_source_step_decreases(g);
        lemma_source_pass_settles(source_step(g)->0);
    }
}

/// The second pass adds incoming transitions only, so a state that no drain
/// rule could close before cannot be closed by one afterwards.
proof fn lemma_source_pass_keeps_drains_closed(g: GemmaView)
    requires
        forall|j: int| 0 <= j < g.states.len() ==> !closable_drain(g.states, g.transitions, #[trigger] g.states[j]),
    ensures
        forall|j: int|
            0 <= j < source_pass(g).states.len() ==> !closable_drain(
                source_pass(g).states,
                source_pass(g).transitions,
                #[trigger] source_pass(g).states[j],
            ),
    decreases source_count(g.states, g.transitions),
{
    if source_step(g) is Some {
        lemma_source_step_decreases(g);
        let h = source_step(g)->0;
        let t = h.transitions.last();
        assert(h.transitions =~= g.transitions.push(t));
        assert forall|j: int| 0 <= j < h.states.len() implies !closable_drain(h.states, h.transitions, #[trigger] h.states[j]) by {
            let sj = h.states[j];
            assert(g.states[j] == sj);
            if has_outgoing(g.transitions, sj.id) {
                let k = choose|k: int| 0 <= k < g.transitions.len() && #[trigger] g.transitions[k].from == sj.id;
                assert(h.transitions[k] == g.transitions[k]);
            }
        }
        lemma_source_pass_keeps_drains_closed(h);
        assert(source_pass(g) == source_pass(h));
    } else {
        assert(source_pass(g) == g);
    }
}

// ── Executable closing ────────────────────────────────────────────────────────

/// Whether the pair is one of the forbidden transitions.
fn forbidden(from: &str, to: &str) -> (r: bool)
    ensures
        r == is_forbidden(from@, to@),
{
    (str_eq(from, "D1") && str_eq(to, "F1")) || (str_eq(from, "A3") && str_eq(to, "F1")) || (
    str_eq(from, "A7") && str_eq(to, "F1")) || (str_eq(from, "A1") && str_eq(to, "F6"))
}

/// The drain rule of `sid`.
fn drain_rule(sid: &str) -> (r: Vec<(&'static str, &'static str)>)
    ensures
        r@.len() == drain_candidates(sid@).len(),
        forall|i: int| 0 <= i < r@.len() ==> (#[trigger] r@[i]).0@ == drain_candidates(sid@)[i].0 && r@[i].1@ == drain_candidates(sid@)[i].1,
{
    if str_eq(sid, "A2") {
        vec![("A1", "Fin_cycle")]
    } else if str_eq(sid, "A3") {
        vec![("A4", "Arret_obtenu")]
    } else if str_eq(sid, "A4") {
        vec![("F1", "Remise_en_marche"), ("A6", "Init_position"), ("A1", "Retour_initial")]
    } else if str_eq(sid, "A5") {
        vec![("A6", "Reprise_apres_defaut"), ("A1", "Reprise_apres_defaut")]
    } else if str_eq(sid, "A7") {
        vec![("A4", "Arret_obtenu"), ("A6", "Quitter_reglage")]
    } else if str_eq(sid, "D1") {
        vec![("D2", "EU_relachee"), ("A5", "Reset_direct")]
    } else if str_eq(sid, "D2") {
        vec![("A5", "Acquit_defaut"), ("A1", "Acquit_defaut")]
    } else if str_eq(sid, "D3") {
        vec![("F1", "Defaut_resolu"), ("A1", "Defaut_resolu")]
    } else if str_eq(sid, "F2") {
        vec![("F1", "Preparation_ok"), ("A1", "Fin_preparation")]
    } else if str_eq(sid, "F3") {
        vec![("A1", "Cloture_ok")]
    } else if str_eq(sid, "F4") {
        vec![("A6", "CI"), ("A1", "CI")]
    } else if str_eq(sid, "F5") {
        vec![("F1", "Fin_verif"), ("F4", "Passage_verif_libre"), ("A1", "Fin_verif")]
    } else if str_eq(sid, "F6") {
        vec![("F1", "Fin_test"), ("A7", "Retour_reglage")]
    } else {
        Vec::new()
    }
}

/// The source rule of `sid`.
fn source_rule(sid: &str) -> (r: Vec<(&'static str, &'static str)>)
    ensures
        r@.len() == source_candidates(sid@).len(),
        forall|i: int| 0 <= i < r@.len() ==> (#[trigger] r@[i]).0@ == source_candidates(sid@)[i].0 && r@[i].1@ == source_candidates(sid@)[i].1,
{
    if str_eq(sid, "A5") {
        vec![("D1", "Reset_direct"), ("D2", "Acquit_defaut"), ("F1", "Defaut")]
    } else if str_eq(sid, "A7") {
        vec![("A5", "Mode_reglage"), ("A1", "Mode_reglage")]
    } else if str_eq(sid, "D1") {
        vec![("F1", "Defaut"), ("F6", "AU")]
    } else if str_eq(sid, "D2") {
        vec![("D1", "EU_relachee"), ("F1", "Defaut_direct")]
    } else if str_eq(sid, "D3") {
        vec![("F1", "Defaut_mineur")]
    } else if str_eq(sid, "F2") {
        vec![("A1", "Mode_preparation")]
    } else if str_eq(sid, "F3") {
        vec![("F1", "Mode_cloture")]
    } else if str_eq(sid, "F4") {
        vec![("A1", "Mode_verif_libre"), ("F1", "Mode_verif_libre")]
    } else if str_eq(sid, "F5") {
        vec![("A1", "Mode_verif_seq"), ("F1", "Mode_verif_seq")]
    } else if str_eq(sid, "F6") {
        vec![("A7", "Mode_test"), ("F1", "Mode_test")]
    } else {
        Vec::new()
    }
}

/// Whether some transition leaves (`outgoing`) or reaches (`!outgoing`) `name`.
fn has_link(gemma: &Gemma, name: &str, outgoing: bool) -> (r: bool)
    ensures
        outgoing ==> r == has_outgoing(gemma@.transitions, name@),
        !outgoing ==> r == has_incoming(gemma@.transitions, name@),
{
    let n = gemma.transitions.len();
    let mut i: usize = 0;
    while i < n
        invariant
            n == gemma.transitions@.len(),
            0 <= i <= n,
            outgoing ==> forall|k: int| 0 <= k < i ==> #[trigger] gemma@.transitions[k].from != name@,
            !outgoing ==> forall|k: int| 0 <= k < i ==> #[trigger] gemma@.transitions[k].to != name@,
        decreases n - i,
    {
        let t = &gemma.transitions[i];
        assert(gemma@.transitions[i as int] == t@);
        if outgoing {
            if str_eq(t.from.as_str(), name) {
                assert(gemma@.transitions[i as int].from == name@);
                return true;
            }
        } else {
            if str_eq(t.to.as_str(), name) {
                assert(gemma@.transitions[i as int].to == name@);
                return true;
            }
        }
        i = i + 1;
    }
    false
}

/// The candidate rule of `sid`: its drain rule (`drains`) or its source rule.
fn rule_of(sid: &str, drains: bool) -> (r: Vec<(&'static str, &'static str)>)
    ensures
        r@.len() == (if drains { drain_candidates(sid@) } else { source_candidates(sid@) }).len(),
        forall|i: int| 0 <= i < r@.len() ==> (#[trigger] r@[i]).0@ == (if drains {
            drain_candidates(sid@)
        } else {
            source_candidates(sid@)
        })[i].0 && r@[i].1@ == (if drains { drain_candidates(sid@) } else { source_candidates(sid@) })[i].1,
{
    if drains {
        drain_rule(sid)
    } else {
        source_rule(sid)
    }
}

/// Index of the first usable candidate of the rule of `sid` in `cands`, or
/// `None`: for a drain rule, a destination that exists and is not forbidden
/// from `sid`; for a source rule, an origin that exists and is not forbidden
/// towards `sid`.
fn usable_candidate(gemma: &Gemma, sid: &str, cands: &Vec<(&'static str, &'static str)>, drains: bool) -> (r: Option<usize>)
    requires
        cands@.len() == (if drains { drain_candidates(sid@) } else { source_candidates(sid@) }).len(),
        forall|i: int| 0 <= i < cands@.len() ==> (#[trigger] cands@[i]).0@ == (if drains {
            drain_candidates(sid@)
        } else {
            source_candidates(sid@)
        })[i].0 && cands@[i].1@ == (if drains { drain_candidates(sid@) } else { source_candidates(sid@) })[i].1,
    ensures
        r matches Some(c) ==> c < cands@.len(),
        drains ==> match r {
            Some(c) => c as int == first_usable_target(gemma@.states, sid@, drain_candidates(sid@)),
            None => first_usable_target(gemma@.states, sid@, drain_candidates(sid@)) == -1,
        },
        !drains ==> match r {
            Some(c) => c as int == first_usable_source(gemma@.states, sid@, source_candidates(sid@)),
            None => first_usable_source(gemma@.states, sid@, source_candidates(sid@)) == -1,
        },
{
    let ghost g = gemma@;
    let ghost cs = if drains {
        drain_candidates(sid@)
    } else {
        source_candidates(sid@)
    };
    let m = cands.len();
    let mut c: usize = 0;
    while c < m
        invariant
            m == cands@.len(),
            cs.len() == m,
            forall|i: int| 0 <= i < m ==> (#[trigger] cands@[i]).0@ == cs[i].0 && cands@[i].1@ == cs[i].1,
            gemma@ == g,
            cs == (if drains { drain_candidates(sid@) } else { source_candidates(sid@) }),
            0 <= c <= m,
            drains ==> first_usable_target(g.states, sid@, cs.take(c as int)) == -1,
            !drains ==> first_usable_source(g.states, sid@, cs.take(c as int)) == -1,
        decreases m - c,
    {
        assert(cs.take(c + 1).drop_last() =~= cs.take(c as int));
        assert(cs.take(c + 1).last() == cs[c as int]);
        let other = cands[c].0;
        let allowed = if drains {
            !forbidden(sid, other)
        } else {
            !forbidden(other, sid)
        };
        if allowed && gemma.has_state(other) {
            proof {
                lemma_prefix_usable(g.states, sid@, cs, c + 1, drains);
            }
            return Some(c);
        }
        c = c + 1;
    }
    assert(cs.take(m as int) =~= cs);
    None
}

/// Index of the first state that a drain rule (`drains`) or a source rule
/// can close.
fn first_open_state(gemma: &Gemma, drains: bool) -> (r: Option<usize>)
    ensures
        drains ==> match r {
            Some(i) => i as int == first_drain(gemma@.states, gemma@.transitions),
            None => first_drain(gemma@.states, gemma@.transitions) == -1,
        },
        !drains ==> match r {
            Some(i) => i as int == first_source(gemma@.states, gemma@.transitions),
            None => first_source(gemma@.states, gemma@.transitions) == -1,
        },
{
    let ghost ss = gemma@.states;
    let ghost ts = gemma@.transitions;
    let n = gemma.states.len();
    let mut i: usize = 0;
    while i < n
        invariant
            n == gemma.states@.len(),
            ss == gemma@.states,
            ts == gemma@.transitions,
            0 <= i <= n,
            drains ==> first_drain_in(ss, ss.take(i as int), ts) == -1,
            !drains ==> first_source_in(ss, ss.take(i as int), ts) == -1,
        decreases n - i,
    {
        assert(ss.take(i + 1).drop_last() =~= ss.take(i as int));
        assert(ss.take(i + 1).last() == ss[i as int]);
        let id = gemma.states[i].id.as_str();
        let open = if drains {
            !has_link(gemma, id, true)
        } else {
            !str_eq(id, "A1") && !str_eq(id, "A6") && !has_link(gemma, id, false)
        };
        let closable = if open {
            let cands = rule_of(id, drains);
            usable_candidate(gemma, id, &cands, drains).is_some()
        } else {
            false
        };
        if closable {
            proof {
                lemma_prefix_first_open(ss, ts, i + 1, drains);
            }
            return Some(i);
        }
        i = i + 1;
    }
    assert(ss.take(n as int) =~= ss);
    None
}

proof fn lemma_prefix_first_open(s: Seq<GemmaStateView>, ts: Seq<GemmaTransitionView>, k: int, drains: bool)
    requires
        0 <= k <= s.len(),
        drains ==> first_drain_in(s, s.take(k), ts) >= 0,
        !drains ==> first_source_in(s, s.take(k), ts) >= 0,
    ensures
        drains ==> first_drain(s, ts) == first_drain_in(s, s.take(k), ts),
        !drains ==> first_source(s, ts) == first_source_in(s, s.take(k), ts),
    decreases s.len() - k,
{
    if k < s.len() {
        assert(s.take(k + 1).drop_last() =~= s.take(k));
        lemma_prefix_first_open(s, ts, k + 1, drains);
    } else {
        assert(s.take(k) =~= s);
    }
}

/// One step of a pass on the executable GEMMA: returns the identifier of the
/// transition it added, or `None` when the pass stops.
fn closing_step(gemma: &mut Gemma, drains: bool) -> (r: Option<u32>)
    requires
        old(gemma).next_trans_id < u32::MAX,
    ensures
        drains ==> match r {
            Some(id) => drain_step(old(gemma)@) == Some(final(gemma)@) && id == old(gemma).next_trans_id,
            None => drain_step(old(gemma)@) is None && final(gemma)@ == old(gemma)@,
        },
        !drains ==> match r {
            Some(id) => source_step(old(gemma)@) == Some(final(gemma)@) && id == old(gemma).next_trans_id,
            None => source_step(old(gemma)@) is None && final(gemma)@ == old(gemma)@,
        },
{
    let ghost g = gemma@;
    proof {
        lemma_first_drain(g.states, g.transitions);
        lemma_first_source(g.states, g.transitions);
    }
    match first_open_state(gemma, drains) {
        None => None,
        Some(d) => {
            let sid = gemma.states[d].id.clone();
            assert(sid@ == g.states[d as int].id);
            let cands = rule_of(sid.as_str(), drains);
            match usable_candidate(gemma, sid.as_str(), &cands, drains) {
                None => None,
                Some(c) => {
                    let (other, cond) = cands[c];
                    let e = Expr::from_str(cond);
                    let o = string_of(other);
                    let sc = sid.clone();
                    let ghost cs = if drains {
                        drain_candidates(sid@)
                    } else {
                        source_candidates(sid@)
                    };
                    assert(o@ == cs[c as int].0);
                    assert(e@ == expr_from_text(cs[c as int].1));
                    assert(sc@ == sid@);
                    let id = if drains {
                        gemma.add_transition(sc, o, e)
                    } else {
                        gemma.add_transition(o, sc, e)
                    };
                    Some(id)
                },
            }
        },
    }
}

proof fn lemma_prefix_usable(states: Seq<GemmaStateView>, sid: Seq<char>, s: Seq<(Seq<char>, Seq<char>)>, k: int, drains: bool)
    requires
        0 <= k <= s.len(),
        drains ==> first_usable_target(states, sid, s.take(k)) >= 0,
        !drains ==> first_usable_source(states, sid, s.take(k)) >= 0,
    ensures
        drains ==> first_usable_target(states, sid, s) == first_usable_target(states, sid, s.take(k)),
        !drains ==> first_usable_source(states, sid, s) == first_usable_source(states, sid, s.take(k)),
    decreases s.len() - k,
{
    if k < s.len() {
        assert(s.take(k + 1).drop_last() =~= s.take(k));
        lemma_prefix_usable(states, sid, s, k + 1, drains);
    } else {
        assert(s.take(k) =~= s);
    }
}

/// Closes the open circuits of the GEMMA, in two passes, each repeated until
/// nothing more can be added:
///   1. the first state with no outgoing transition that has a usable drain
///      rule receives the outgoing transition of that rule;
///   2. the first state other than A1 and A6 with no incoming transition that
///      has a usable source rule receives the incoming transition of that rule.
/// A candidate of a rule is usable when its other state exists and the
/// transition is not forbidden; the first usable candidate is taken, and a
/// state whose rule has none is left as it is. Returns the identifiers of the
/// transitions added, in order.
pub fn close_open_circuits(gemma: &mut Gemma) -> (added: Vec<u32>)
    requires
        old(gemma).next_trans_id + 2 * old(gemma)@.states.len() < u32::MAX,
    ensures
        final(gemma)@ == closed_gemma(old(gemma)@),
        added@ == transition_ids(final(gemma)@.transitions.skip(old(gemma)@.transitions.len() as int)),
{
    let ghost g0 = gemma@;
    let ghost n0 = g0.transitions.len();
    let mut added: Vec<u32> = Vec::new();
    proof {
        lemma_drain_count_le(g0.states, g0.transitions);
        lemma_extends_refl(g0);
        assert(g0.transitions.skip(n0 as int) =~= Seq::<GemmaTransitionView>::empty());
    }
    loop
        invariant_except_break
            drain_pass(gemma@) == drain_pass(g0),
        invariant
            gemma.next_trans_id + drain_count(gemma@.states, gemma@.transitions) <= g0.next_trans_id + g0.states.len(),
            g0.next_trans_id + 2 * g0.states.len() < u32::MAX,
            extends_allowed(g0, gemma@),
            n0 == g0.transitions.len(),
            added@ == transition_ids(gemma@.transitions.skip(n0 as int)),
        ensures
            gemma@ == drain_pass(g0),
        decreases drain_count(gemma@.states, gemma@.transitions),
    {
        let ghost before = gemma@;
        match closing_step(gemma, true) {
            None => {
                break;
            },
            Some(id) => {
                proof {
                    lemma_drain_step_decreases(before);
                    lemma_drain_step_extends(before);
                    lemma_extends_trans(g0, before, gemma@);
                    let tv = gemma@.transitions.last();
                    assert(gemma@.transitions =~= before.transitions.push(tv));
                    assert(tv.id == id);
                    assert(before.transitions.len() >= n0);
                    let sk = gemma@.transitions.skip(n0 as int);
                    assert(sk =~= before.transitions.skip(n0 as int).push(tv));
                    assert(sk.drop_last() =~= before.transitions.skip(n0 as int));
                    assert(transition_ids(sk) == transition_ids(sk.drop_last()).push(tv.id));
                }
                added.push(id);
            },
        }
    }
    let ghost g1 = gemma@;
    proof {
        lemma_source_count_le(g1.states, g1.transitions);
    }
    loop
        invariant_except_break
            source_pass(gemma@) == source_pass(g1),
        invariant
            gemma.next_trans_id + source_count(gemma@.states, gemma@.transitions) <= g1.next_trans_id + g1.states.len(),
            g1.next_trans_id <= g0.next_trans_id + g0.states.len(),
            g1.states == g0.states,
            g0.next_trans_id + 2 * g0.states.len() < u32::MAX,
            extends_allowed(g0, gemma@),
            n0 == g0.transitions.len(),
            added@ == transition_ids(gemma@.transitions.skip(n0 as int)),
        ensures
            gemma@ == source_pass(g1),
        decreases source_count(gemma@.states, gemma@.transitions),
    {
        let ghost before = gemma@;
        match closing_step(gemma, false) {
            None => {
                break;
            },
            Some(id) => {
                proof {
                    lemma_source_step_decreases(before);
                    lemma_source_step_extends(before);
                    lemma_extends_trans(g0, before, gemma@);
                    let tv = gemma@.transitions.last();
                    assert(gemma@.transitions =~= before.transitions.push(tv));
                    assert(tv.id == id);
                    assert(before.transitions.len() >= n0);
                    let sk = gemma@.transitions.skip(n0 as int);
                    assert(sk =~= before.transitions.skip(n0 as int).push(tv));
                    assert(sk.drop_last() =~= before.transitions.skip(n0 as int));
                    assert(transition_ids(sk) == transition_ids(sk.drop_last()).push(tv.id));
                }
                added.push(id);
            },
        }
    }
    added
}

} // verus!

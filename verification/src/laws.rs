//! Global properties of the state machine: how runs of events compose,
//! that the encounter list never holds a duplicate, when hand and stash
//! stay disjoint, and that one resync block is idempotent on hand and
//! stash membership.
use vstd::prelude::*;

use crate::event::EventView;
use crate::spec_is_item;
use crate::state::{
    lemma_dedup_unique, spec_initial, spec_place, spec_resolve, spec_step, unique_seq, StateView,
};
use crate::text::spec_contains;

verus! {

/// Running a sequence of events from a state, first event first.
pub open spec fn spec_run(v: StateView, evs: Seq<EventView>) -> StateView
    decreases evs.len(),
{
    if evs.len() == 0 {
        v
    } else {
        spec_run(spec_step(v, evs[0]).0, evs.drop_first())
    }
}

pub proof fn lemma_run_append(v: StateView, a: Seq<EventView>, b: Seq<EventView>)
    ensures
        spec_run(v, a + b) == spec_run(spec_run(v, a), b),
    decreases a.len(),
{
    if a.len() == 0 {
        assert(a + b =~= b);
    } else {
        assert((a + b)[0] == a[0]);
        assert((a + b).drop_first() =~= a.drop_first() + b);
        lemma_run_append(spec_step(v, a[0]).0, a.drop_first(), b);
    }
}

pub proof fn lemma_run_one(v: StateView, e: EventView, rest: Seq<EventView>)
    ensures
        spec_run(v, seq![e] + rest) == spec_run(spec_step(v, e).0, rest),
{
    assert((seq![e] + rest)[0] == e);
    assert((seq![e] + rest).drop_first() =~= rest);
}

pub proof fn lemma_run_single(v: StateView, e: EventView)
    ensures
        spec_run(v, seq![e]) == spec_step(v, e).0,
{
    let s = seq![e];
    assert(s.drop_first() =~= Seq::<EventView>::empty());
    assert(s.drop_first().len() == 0);
    assert(spec_run(spec_step(v, e).0, s.drop_first()) == spec_step(v, e).0);
}

pub proof fn lemma_push_unique(s: Seq<Seq<char>>, x: Seq<char>)
    requires
        unique_seq(s),
        !s.contains(x),
    ensures
        unique_seq(s.push(x)),
{
    assert forall|a: int, b: int| 0 <= a < b < s.push(x).len() implies s.push(x)[a] != s.push(
        x,
    )[b] by {
        if b == s.len() {
            assert(s.push(x)[a] == s[a]);
            assert(s.contains(s[a]));
        } else {
            assert(s.push(x)[a] == s[a] && s.push(x)[b] == s[b]);
        }
    }
}

/// Dedup invariant, one step: no event introduces a duplicate template
/// identifier into the encounter sequence.
pub proof fn lemma_encounter_unique_step(v: StateView, ev: EventView)
    requires
        unique_seq(v.encounter),
    ensures
        unique_seq(spec_step(v, ev).0.encounter),
{
    match ev {
        EventView::DealtBatch { ids } => {
            lemma_dedup_unique(ids);
        },
        EventView::FieldSection { value } => {
            if v.in_sync_block {
                let tid = spec_resolve(v.catalog, v.cur_id);
                if !v.encounter.contains(tid) {
                    lemma_push_unique(v.encounter, tid);
                }
            }
        },
        _ => {},
    }
}

/// Dedup invariant: along any run of events from a state whose encounter
/// list holds no duplicates — the fresh state in particular — the
/// encounter list never holds a duplicate template identifier.
pub proof fn lemma_encounter_unique_run(v: StateView, evs: Seq<EventView>)
    requires
        unique_seq(v.encounter),
    ensures
        unique_seq(spec_run(v, evs).encounter),
    decreases evs.len(),
{
    if evs.len() > 0 {
        lemma_encounter_unique_step(v, evs[0]);
        lemma_encounter_unique_run(spec_step(v, evs[0]).0, evs.drop_first());
    }
}

/// Dedup invariant at every reachable state: any state a run of events
/// reaches from the fresh session state has a duplicate-free encounter
/// list.
pub proof fn lemma_encounter_unique_reachable(evs: Seq<EventView>)
    ensures
        unique_seq(spec_run(spec_initial(), evs).encounter),
{
    lemma_encounter_unique_run(spec_initial(), evs);
}

/// Hand and stash share no instance identifier.
pub open spec fn spec_disjoint(v: StateView) -> bool {
    forall|x: Seq<char>| !(#[trigger] v.hand.contains(x) && v.stash.contains(x))
}

/// An event that places an identifier into one of the two sets while the
/// other still holds it. These are the only events that can break
/// disjointness: a purchase routed to storage while the instance still
/// sits in the hand, a block placement of an instance the other set holds,
/// or a socket move of such an instance.
pub open spec fn spec_conflicting(v: StateView, ev: EventView) -> bool {
    match ev {
        EventView::Purchased { iid, tid, target } => spec_is_item(iid) && (if spec_contains(
            target,
            "Storage"@,
        ) {
            v.hand.contains(iid)
        } else {
            !v.in_sync_block && v.stash.contains(iid)
        }),
        EventView::FieldSection { value } => v.in_sync_block && v.cur_id.len() > 0 && v.cur_owner
            == "Player"@ && spec_is_item(v.cur_id) && (if value == "Hand"@ {
            v.stash.contains(v.cur_id)
        } else {
            v.hand.contains(v.cur_id)
        }),
        EventView::MoveToSocket { iid, socket } => spec_is_item(iid) && v.sockets.contains_key(
            socket,
        ) && (if v.sockets[socket] == "Hand"@ {
            v.stash.contains(iid)
        } else {
            v.hand.contains(iid)
        }),
        _ => false,
    }
}

/// Disjointness invariant, one step: an event that is not conflicting
/// keeps hand and stash disjoint.
pub proof fn lemma_disjoint_step(v: StateView, ev: EventView)
    requires
        spec_disjoint(v),
        !spec_conflicting(v, ev),
    ensures
        spec_disjoint(spec_step(v, ev).0),
{
}

/// No step of the run places an identifier into one set while the other
/// still holds it.
pub open spec fn spec_conflict_free(v: StateView, evs: Seq<EventView>) -> bool
    decreases evs.len(),
{
    evs.len() == 0 || (!spec_conflicting(v, evs[0]) && spec_conflict_free(
        spec_step(v, evs[0]).0,
        evs.drop_first(),
    ))
}

/// Disjointness invariant: hand and stash stay disjoint along any
/// conflict-free run that starts from disjoint sets — from the fresh state
/// in particular.
pub proof fn lemma_disjoint_run(v: StateView, evs: Seq<EventView>)
    requires
        spec_disjoint(v),
        spec_conflict_free(v, evs),
    ensures
        spec_disjoint(spec_run(v, evs)),
    decreases evs.len(),
{
    if evs.len() > 0 {
        lemma_disjoint_step(v, evs[0]);
        lemma_disjoint_run(spec_step(v, evs[0]).0, evs.drop_first());
    }
}

/// Disjointness at every reachable state: any conflict-free run of events
/// from the fresh session state leaves hand and stash disjoint.
pub proof fn lemma_disjoint_reachable(evs: Seq<EventView>)
    requires
        spec_conflict_free(spec_initial(), evs),
    ensures
        spec_disjoint(spec_run(spec_initial(), evs)),
{
    lemma_disjoint_run(spec_initial(), evs);
}

/// One card of a resync block: the identifier and owner fields, an
/// optional socket field, and the section field that finalizes it.
pub struct CardGroup {
    pub id: Seq<char>,
    pub owner: Seq<char>,
    pub socket: Option<Seq<char>>,
    pub section: Seq<char>,
}

/// The field events one card contributes, in order.
pub open spec fn group_events(g: CardGroup) -> Seq<EventView> {
    match g.socket {
        Some(k) => seq![
            EventView::FieldId { id: g.id },
            EventView::FieldOwner { value: g.owner },
            EventView::FieldSocket { value: k },
            EventView::FieldSection { value: g.section },
        ],
        None => seq![
            EventView::FieldId { id: g.id },
            EventView::FieldOwner { value: g.owner },
            EventView::FieldSection { value: g.section },
        ],
    }
}

pub open spec fn groups_events(gs: Seq<CardGroup>) -> Seq<EventView>
    decreases gs.len(),
{
    if gs.len() == 0 {
        Seq::empty()
    } else {
        group_events(gs[0]) + groups_events(gs.drop_first())
    }
}

/// A full resync block: the open marker, every card's fields, the close
/// marker.
pub open spec fn block_events(gs: Seq<CardGroup>) -> Seq<EventView> {
    seq![EventView::BlockOpen] + (groups_events(gs) + seq![EventView::BlockClose])
}

/// Every card carries a nonempty identifier.
pub open spec fn groups_wf(gs: Seq<CardGroup>) -> bool {
    forall|i: int| 0 <= i < gs.len() ==> gs[i].id.len() > 0
}

/// The card places a player-owned item instance into the hand.
pub open spec fn is_hand_card(g: CardGroup) -> bool {
    g.owner == "Player"@ && spec_is_item(g.id) && g.section == "Hand"@
}

/// The card places a player-owned item instance into the stash.
pub open spec fn is_stash_card(g: CardGroup) -> bool {
    g.owner == "Player"@ && spec_is_item(g.id) && g.section != "Hand"@
}

/// Hand and stash membership, and the cleared flag, after the cards of a
/// block are assembled: the first hand placement with the flag down
/// replaces the hand outright; every further placement only inserts.
pub open spec fn hs_after(h: Set<Seq<char>>, s: Set<Seq<char>>, c: bool, gs: Seq<CardGroup>) -> (
    Set<Seq<char>>,
    Set<Seq<char>>,
    bool,
)
    decreases gs.len(),
{
    if gs.len() == 0 {
        (h, s, c)
    } else {
        let g = gs[0];
        let rest = gs.drop_first();
        if is_hand_card(g) {
            if c {
                hs_after(h.insert(g.id), s, true, rest)
            } else {
                hs_after(Set::empty().insert(g.id), s, true, rest)
            }
        } else if is_stash_card(g) {
            hs_after(h, s.insert(g.id), c, rest)
        } else {
            hs_after(h, s, c, rest)
        }
    }
}

/// Inside a block, a card's fields set the cursor and its section field
/// places it: running them equals one `hs_after` step, the encounter and
/// flags aside.
pub proof fn lemma_run_group(v: StateView, g: CardGroup, rest: Seq<EventView>)
    requires
        v.in_sync_block,
        g.id.len() > 0,
    ensures
        ({
            let w = spec_run(v, group_events(g) + rest);
            let u = spec_run(rest_state(v, g), rest);
            w == u
        }),
{
    let e1 = EventView::FieldId { id: g.id };
    let e2 = EventView::FieldOwner { value: g.owner };
    let e4 = EventView::FieldSection { value: g.section };
    match g.socket {
        Some(k) => {
            let e3 = EventView::FieldSocket { value: k };
            assert(group_events(g) + rest =~= seq![e1] + (seq![e2] + (seq![e3] + (seq![e4]
                + rest))));
            lemma_run_one(v, e1, seq![e2] + (seq![e3] + (seq![e4] + rest)));
            let v1 = spec_step(v, e1).0;
            lemma_run_one(v1, e2, seq![e3] + (seq![e4] + rest));
            let v2 = spec_step(v1, e2).0;
            lemma_run_one(v2, e3, seq![e4] + rest);
            let v3 = spec_step(v2, e3).0;
            lemma_run_one(v3, e4, rest);
            assert(spec_step(v3, e4).0 == rest_state(v, g));
        },
        None => {
            assert(group_events(g) + rest =~= seq![e1] + (seq![e2] + (seq![e4] + rest)));
            lemma_run_one(v, e1, seq![e2] + (seq![e4] + rest));
            let v1 = spec_step(v, e1).0;
            lemma_run_one(v1, e2, seq![e4] + rest);
            let v2 = spec_step(v1, e2).0;
            lemma_run_one(v2, e4, rest);
            assert(spec_step(v2, e4).0 == rest_state(v, g));
        },
    }
}

/// The state after one card's fields are assembled and placed.
pub open spec fn rest_state(v: StateView, g: CardGroup) -> StateView {
    let cur = StateView {
        cur_id: g.id,
        cur_owner: g.owner,
        cur_socket: match g.socket {
            Some(k) => k,
            None => v.cur_socket,
        },
        ..v
    };
    spec_place(cur, g.section).0
}

/// Running a block's cards from inside the block: the hand, the stash and
/// the cleared flag land exactly where `hs_after` says, and the machine
/// stays inside the block.
pub proof fn lemma_run_groups(v: StateView, gs: Seq<CardGroup>)
    requires
        v.in_sync_block,
        groups_wf(gs),
    ensures
        ({
            let w = spec_run(v, groups_events(gs));
            let r = hs_after(v.hand, v.stash, v.hand_cleared_this_sync, gs);
            w.in_sync_block && w.hand == r.0 && w.stash == r.1 && w.hand_cleared_this_sync == r.2
        }),
    decreases gs.len(),
{
    if gs.len() > 0 {
        let g = gs[0];
        let rest = gs.drop_first();
        assert(groups_wf(rest)) by {
            assert(forall|i: int| 0 <= i < rest.len() ==> rest[i] == gs[i + 1]);
        }
        lemma_run_group(v, g, groups_events(rest));
        let v2 = rest_state(v, g);
        lemma_run_groups(v2, rest);
    }
}

/// The stash never shrinks while a block is assembled, and the cleared
/// flag never goes back down.
pub proof fn lemma_hs_after_monotone(
    h: Set<Seq<char>>,
    s: Set<Seq<char>>,
    c: bool,
    gs: Seq<CardGroup>,
)
    ensures
        s.subset_of(hs_after(h, s, c, gs).1),
        c ==> hs_after(h, s, c, gs).2,
    decreases gs.len(),
{
    if gs.len() > 0 {
        let g = gs[0];
        let rest = gs.drop_first();
        if is_hand_card(g) {
            if c {
                lemma_hs_after_monotone(h.insert(g.id), s, true, rest);
            } else {
                lemma_hs_after_monotone(Set::empty().insert(g.id), s, true, rest);
            }
        } else if is_stash_card(g) {
            lemma_hs_after_monotone(h, s.insert(g.id), c, rest);
        } else {
            lemma_hs_after_monotone(h, s, c, rest);
        }
    }
}

/// With the cleared flag already up, re-assembling the same cards from the
/// final stash changes nothing.
pub proof fn lemma_hs_after_true_idem(h: Set<Seq<char>>, s: Set<Seq<char>>, gs: Seq<CardGroup>)
    ensures
        ({
            let r = hs_after(h, s, true, gs);
            hs_after(h, r.1, true, gs) == r
        }),
    decreases gs.len(),
{
    if gs.len() > 0 {
        let g = gs[0];
        let rest = gs.drop_first();
        if is_hand_card(g) {
            lemma_hs_after_true_idem(h.insert(g.id), s, rest);
        } else if is_stash_card(g) {
            let r = hs_after(h, s.insert(g.id), true, rest);
            lemma_hs_after_monotone(h, s.insert(g.id), true, rest);
            assert(r.1.insert(g.id) =~= r.1);
            lemma_hs_after_true_idem(h, s.insert(g.id), rest);
        } else {
            lemma_hs_after_true_idem(h, s, rest);
        }
    }
}

/// Re-assembling the same cards from the outcome, with the cleared flag
/// down again, reproduces that outcome exactly.
pub proof fn lemma_hs_after_idem(h: Set<Seq<char>>, s: Set<Seq<char>>, gs: Seq<CardGroup>)
    ensures
        ({
            let r = hs_after(h, s, false, gs);
            hs_after(r.0, r.1, false, gs) == r
        }),
    decreases gs.len(),
{
    if gs.len() > 0 {
        let g = gs[0];
        let rest = gs.drop_first();
        if is_hand_card(g) {
            lemma_hs_after_true_idem(Set::empty().insert(g.id), s, rest);
        } else if is_stash_card(g) {
            let r = hs_after(h, s.insert(g.id), false, rest);
            lemma_hs_after_monotone(h, s.insert(g.id), false, rest);
            assert(r.1.insert(g.id) =~= r.1);
            lemma_hs_after_idem(h, s.insert(g.id), rest);
        } else {
            lemma_hs_after_idem(h, s, rest);
        }
    }
}

/// Idempotence: feeding one well-formed resync block twice, with no other
/// events in between, yields the same hand and stash membership both
/// times.
pub proof fn lemma_resync_block_idempotent(v: StateView, gs: Seq<CardGroup>)
    requires
        groups_wf(gs),
        !v.in_sync_block,
        !v.hand_cleared_this_sync,
    ensures
        ({
            let s1 = spec_run(v, block_events(gs));
            let s2 = spec_run(s1, block_events(gs));
            s2.hand == s1.hand && s2.stash == s1.stash
        }),
{
    let open = EventView::BlockOpen;
    let close = EventView::BlockClose;
    let s1 = spec_run(v, block_events(gs));
    lemma_run_one(v, open, groups_events(gs) + seq![close]);
    let w1 = spec_step(v, open).0;
    lemma_run_append(w1, groups_events(gs), seq![close]);
    let u1 = spec_run(w1, groups_events(gs));
    lemma_run_groups(w1, gs);
    lemma_run_single(u1, close);
    let r1 = hs_after(v.hand, v.stash, false, gs);
    assert(s1.hand == r1.0 && s1.stash == r1.1);
    assert(!s1.in_sync_block && !s1.hand_cleared_this_sync);

    let s2 = spec_run(s1, block_events(gs));
    lemma_run_one(s1, open, groups_events(gs) + seq![close]);
    let w2 = spec_step(s1, open).0;
    lemma_run_append(w2, groups_events(gs), seq![close]);
    let u2 = spec_run(w2, groups_events(gs));
    lemma_run_groups(w2, gs);
    lemma_run_single(u2, close);
    lemma_hs_after_idem(v.hand, v.stash, gs);
    let r2 = hs_after(r1.0, r1.1, false, gs);
    assert(s2.hand == r2.0 && s2.stash == r2.1);
}

} // verus!

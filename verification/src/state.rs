//! The inventory state machine: hand and stash membership, the encounter
//! list, the socket-to-section memory, the instance catalog, the block
//! assembly cursor and the session flags, together with the transition
//! that one event performs.
//!
//! The executable state holds duplicate-free vectors; its mathematical
//! value is sets, sequences and maps of character sequences, and every
//! mutation is proved equal to the spec-level transition `spec_step`.
use vstd::prelude::*;

use crate::event::{Event, EventView};
use crate::spec_is_item;
use crate::is_item_instance;
use crate::text::{contains_sub, match_at_exec, spec_contains, str_chars};

verus! {

/// No two entries are equal.
pub open spec fn unique_seq(s: Seq<Seq<char>>) -> bool {
    forall|i: int, j: int| 0 <= i < j < s.len() ==> s[i] != s[j]
}

/// No two entries share a key.
pub open spec fn unique_keys(ps: Seq<(Seq<char>, Seq<char>)>) -> bool {
    forall|i: int, j: int| 0 <= i < j < ps.len() ==> ps[i].0 != ps[j].0
}

/// The character-sequence value of a vector of key/value pairs.
pub open spec fn pv(v: Seq<(String, String)>) -> Seq<(Seq<char>, Seq<char>)> {
    Seq::new(v.len(), |i: int| (v[i].0@, v[i].1@))
}

/// The finite map that a pair sequence denotes; a later entry for the same
/// key wins.
pub open spec fn map_of(ps: Seq<(Seq<char>, Seq<char>)>) -> Map<Seq<char>, Seq<char>>
    decreases ps.len(),
{
    if ps.len() == 0 {
        Map::empty()
    } else {
        map_of(ps.drop_last()).insert(ps.last().0, ps.last().1)
    }
}

pub proof fn lemma_map_of_domain(ps: Seq<(Seq<char>, Seq<char>)>)
    ensures
        forall|k: Seq<char>| #[trigger]
            map_of(ps).contains_key(k) <==> exists|i: int| 0 <= i < ps.len() && ps[i].0 == k,
    decreases ps.len(),
{
    if ps.len() > 0 {
        let dl = ps.drop_last();
        lemma_map_of_domain(dl);
        assert forall|k: Seq<char>| #[trigger] map_of(ps).contains_key(k) implies exists|i: int|
            0 <= i < ps.len() && ps[i].0 == k by {
            if k == ps.last().0 {
                assert(ps[ps.len() - 1].0 == k);
            } else {
                assert(map_of(dl).contains_key(k));
                let i = choose|i: int| 0 <= i < dl.len() && dl[i].0 == k;
                assert(dl[i] == ps[i]);
                assert(ps[i].0 == k);
            }
        };
        assert forall|k: Seq<char>|
            (exists|i: int| 0 <= i < ps.len() && ps[i].0 == k) implies #[trigger] map_of(
            ps,
        ).contains_key(k) by {
            let i = choose|i: int| 0 <= i < ps.len() && ps[i].0 == k;
            if i < ps.len() - 1 {
                assert(dl[i] == ps[i]);
                assert(dl[i].0 == k);
                assert(map_of(dl).contains_key(k));
            }
        };
    }
}

pub proof fn lemma_map_of_at(ps: Seq<(Seq<char>, Seq<char>)>, i: int)
    requires
        unique_keys(ps),
        0 <= i < ps.len(),
    ensures
        map_of(ps).contains_key(ps[i].0),
        map_of(ps)[ps[i].0] == ps[i].1,
    decreases ps.len(),
{
    let dl = ps.drop_last();
    if i < ps.len() - 1 {
        assert(unique_keys(dl)) by {
            assert(forall|a: int, b: int| 0 <= a < b < dl.len() ==> dl[a] == ps[a] && dl[b] == ps[b]);
        }
        lemma_map_of_at(dl, i);
        assert(ps[i].0 != ps.last().0);
    }
}

pub proof fn lemma_map_of_remove(ps: Seq<(Seq<char>, Seq<char>)>, i: int)
    requires
        unique_keys(ps),
        0 <= i < ps.len(),
    ensures
        unique_keys(ps.remove(i)),
        map_of(ps.remove(i)) == map_of(ps).remove(ps[i].0),
    decreases ps.len(),
{
    ps.remove_ensures(i);
    let r = ps.remove(i);
    let dl = ps.drop_last();
    assert(unique_keys(r)) by {
        assert forall|a: int, b: int| 0 <= a < b < r.len() implies r[a].0 != r[b].0 by {
            let a2: int = if a < i { a } else { a + 1 };
            let b2: int = if b < i { b } else { b + 1 };
            assert(r[a] == ps[a2] && r[b] == ps[b2]);
        }
    }
    assert(unique_keys(dl)) by {
        assert(forall|a: int, b: int| 0 <= a < b < dl.len() ==> dl[a] == ps[a] && dl[b] == ps[b]);
    }
    lemma_map_of_domain(dl);
    if i == ps.len() - 1 {
        assert(r =~= dl);
        assert(!map_of(dl).contains_key(ps[i].0)) by {
            assert(forall|j: int| 0 <= j < dl.len() ==> dl[j] == ps[j] && ps[j].0 != ps[i].0);
        }
        assert(map_of(r) =~= map_of(ps).remove(ps[i].0));
    } else {
        assert(r.len() == ps.len() - 1);
        assert(r.last() == ps.last());
        assert(r.drop_last() =~= dl.remove(i)) by {
            dl.remove_ensures(i);
        }
        lemma_map_of_remove(dl, i);
        assert(dl[i] == ps[i]);
        assert(ps[i].0 != ps.last().0);
        assert(map_of(r) == map_of(dl).remove(ps[i].0).insert(ps.last().0, ps.last().1));
        assert(map_of(dl).remove(ps[i].0).insert(ps.last().0, ps.last().1) =~= map_of(
            dl,
        ).insert(ps.last().0, ps.last().1).remove(ps[i].0));
    }
}

pub proof fn lemma_push_to_set(s: Seq<Seq<char>>, x: Seq<char>)
    ensures
        s.push(x).to_set() == s.to_set().insert(x),
{
    assert forall|y: Seq<char>| #[trigger] s.push(x).to_set().contains(y) implies s.to_set().insert(
        x,
    ).contains(y) by {
        let i = choose|i: int| 0 <= i < s.push(x).len() && s.push(x)[i] == y;
        if i < s.len() {
            assert(s[i] == y);
        }
    };
    assert forall|y: Seq<char>| s.to_set().insert(x).contains(y) implies #[trigger] s.push(
        x,
    ).to_set().contains(y) by {
        if y == x {
            assert(s.push(x)[s.len() as int] == y);
        } else {
            let i = choose|i: int| 0 <= i < s.len() && s[i] == y;
            assert(s.push(x)[i] == y);
        }
    };
    assert(s.push(x).to_set() =~= s.to_set().insert(x));
}

pub proof fn lemma_remove_to_set(s: Seq<Seq<char>>, i: int)
    requires
        unique_seq(s),
        0 <= i < s.len(),
    ensures
        unique_seq(s.remove(i)),
        s.remove(i).to_set() == s.to_set().remove(s[i]),
    decreases s.len(),
{
    s.remove_ensures(i);
    let r = s.remove(i);
    assert(unique_seq(r)) by {
        assert forall|a: int, b: int| 0 <= a < b < r.len() implies r[a] != r[b] by {
            let a2: int = if a < i { a } else { a + 1 };
            let b2: int = if b < i { b } else { b + 1 };
            assert(r[a] == s[a2] && r[b] == s[b2]);
        }
    }
    assert forall|y: Seq<char>| #[trigger] r.to_set().contains(y) implies s.to_set().contains(y)
        && y != s[i] by {
        let j = choose|j: int| 0 <= j < r.len() && r[j] == y;
        let j2: int = if j < i { j } else { j + 1 };
        assert(s[j2] == y);
    };
    assert forall|y: Seq<char>| s.to_set().contains(y) && y != s[i] implies #[trigger]
        r.to_set().contains(y) by {
        let j = choose|j: int| 0 <= j < s.len() && s[j] == y;
        if j < i {
            assert(r[j] == y);
        } else {
            assert(r[j - 1] == y);
        }
    };
    assert(r.to_set() =~= s.to_set().remove(s[i]));
}

/// Equality of two string slices, decided character by character.
pub fn str_eq(a: &str, b: &str) -> (r: bool)
    ensures
        r == (a@ == b@),
{
    let ca = str_chars(a);
    let cb = str_chars(b);
    if ca.len() != cb.len() {
        return false;
    }
    let r = match_at_exec(&ca, &cb, 0);
    proof {
        assert(ca@.subrange(0, ca@.len() as int) =~= ca@);
    }
    r
}

/// Membership of a string in a vector, by character equality.
pub fn contains_str(v: &Vec<String>, x: &String) -> (r: bool)
    ensures
        r == v.deep_view().contains(x@),
{
    let n = v.len();
    let mut i: usize = 0;
    while i < n
        invariant
            i <= n,
            n == v@.len(),
            forall|k: int| 0 <= k < i ==> v@[k]@ != x@,
        decreases n - i,
    {
        if str_eq(v[i].as_str(), x.as_str()) {
            proof {
                assert(v.deep_view()[i as int] == x@);
            }
            return true;
        }
        i += 1;
    }
    proof {
        assert forall|k: int| 0 <= k < v.deep_view().len() implies v.deep_view()[k] != x@ by {
            assert(v@[k]@ != x@);
        }
    }
    false
}

/// Append `x` unless it is already present; keeps entries unique.
pub fn insert_unique(v: &mut Vec<String>, x: String)
    requires
        unique_seq(old(v).deep_view()),
    ensures
        unique_seq(final(v).deep_view()),
        final(v).deep_view() == if old(v).deep_view().contains(x@) {
            old(v).deep_view()
        } else {
            old(v).deep_view().push(x@)
        },
        final(v).deep_view().to_set() == old(v).deep_view().to_set().insert(x@),
{
    let present = contains_str(v, &x);
    let ghost s = v.deep_view();
    if !present {
        v.push(x);
        proof {
            assert(v.deep_view() =~= s.push(x@));
            lemma_push_to_set(s, x@);
            assert forall|a: int, b: int| 0 <= a < b < v.deep_view().len() implies v.deep_view()[a]
                != v.deep_view()[b] by {
                if b == s.len() {
                    assert(v.deep_view()[a] == s[a]);
                }
            }
        }
    } else {
        proof {
            assert(s.to_set() =~= s.to_set().insert(x@));
        }
    }
}

/// Remove `x` if present; the entries stay unique.
pub fn remove_str(v: &mut Vec<String>, x: &String)
    requires
        unique_seq(old(v).deep_view()),
    ensures
        unique_seq(final(v).deep_view()),
        final(v).deep_view().to_set() == old(v).deep_view().to_set().remove(x@),
{
    let n = v.len();
    let mut i: usize = 0;
    while i < n
        invariant
            i <= n,
            n == v@.len(),
            unique_seq(v.deep_view()),
            v == old(v),
            forall|k: int| 0 <= k < i ==> v@[k]@ != x@,
        decreases n - i,
    {
        if str_eq(v[i].as_str(), x.as_str()) {
            let ghost s = v.deep_view();
            v.remove(i);
            proof {
                assert(v.deep_view() =~= s.remove(i as int)) by {
                    s.remove_ensures(i as int);
                }
                lemma_remove_to_set(s, i as int);
                assert(s[i as int] == x@);
            }
            return ;
        }
        i += 1;
    }
    proof {
        let s = v.deep_view();
        assert forall|y: Seq<char>| s.to_set().contains(y) implies y != x@ by {
            let k = choose|k: int| 0 <= k < s.len() && s[k] == y;
            assert(v@[k]@ != x@);
        }
        assert(s.to_set() =~= s.to_set().remove(x@));
    }
}

/// Look a key up in a pair vector.
pub fn map_get(v: &Vec<(String, String)>, k: &String) -> (r: Option<String>)
    requires
        unique_keys(pv(v@)),
    ensures
        match r {
            Some(val) => map_of(pv(v@)).contains_key(k@) && val@ == map_of(pv(v@))[k@],
            None => !map_of(pv(v@)).contains_key(k@),
        },
{
    let n = v.len();
    let mut i: usize = 0;
    while i < n
        invariant
            i <= n,
            n == v@.len(),
            unique_keys(pv(v@)),
            forall|j: int| 0 <= j < i ==> v@[j].0@ != k@,
        decreases n - i,
    {
        if str_eq(v[i].0.as_str(), k.as_str()) {
            proof {
                assert(pv(v@)[i as int].0 == k@);
                lemma_map_of_at(pv(v@), i as int);
            }
            return Some(v[i].1.clone());
        }
        i += 1;
    }
    proof {
        lemma_map_of_domain(pv(v@));
        assert forall|j: int| 0 <= j < pv(v@).len() implies pv(v@)[j].0 != k@ by {
            assert(v@[j].0@ != k@);
        }
    }
    None
}

/// Insert or overwrite one key; the keys stay unique.
pub fn map_upsert(v: &mut Vec<(String, String)>, k: String, val: String)
    requires
        unique_keys(pv(old(v)@)),
    ensures
        unique_keys(pv(final(v)@)),
        map_of(pv(final(v)@)) == map_of(pv(old(v)@)).insert(k@, val@),
{
    let n = v.len();
    let mut i: usize = 0;
    let mut found: bool = false;
    let mut at: usize = 0;
    while i < n
        invariant
            i <= n,
            n == v@.len(),
            v == old(v),
            unique_keys(pv(v@)),
            !found ==> forall|j: int| 0 <= j < i ==> v@[j].0@ != k@,
            found ==> at < i && v@[at as int].0@ == k@,
        decreases n - i,
    {
        if !found && str_eq(v[i].0.as_str(), k.as_str()) {
            found = true;
            at = i;
        }
        i += 1;
    }
    let ghost ps = pv(v@);
    let ghost vs = v@;
    if found {
        v.remove(at);
        proof {
            assert(pv(v@) =~= ps.remove(at as int)) by {
                vs.remove_ensures(at as int);
                ps.remove_ensures(at as int);
            }
            lemma_map_of_remove(ps, at as int);
        }
        let ghost ps2 = pv(v@);
        v.push((k, val));
        proof {
            assert(pv(v@).drop_last() =~= ps2);
            assert(pv(v@).last() == (k@, val@));
            assert(map_of(pv(v@)) == map_of(ps2).insert(k@, val@));
            assert(map_of(ps2).insert(k@, val@) =~= map_of(ps).insert(k@, val@));
            assert(unique_keys(pv(v@))) by {
                lemma_map_of_domain(ps2);
                assert forall|a: int, b: int| 0 <= a < b < pv(v@).len() implies pv(v@)[a].0 != pv(
                    v@,
                )[b].0 by {
                    if b == ps2.len() {
                        assert(pv(v@)[a] == ps2[a]);
                        if ps2[a].0 == k@ {
                            assert(ps.remove(at as int)[a].0 == k@);
                            let a2: int = if a < at { a } else { a + 1 };
                            assert(ps[a2].0 == k@ && ps[at as int].0 == k@ && a2 != at);
                        }
                    } else {
                        assert(pv(v@)[a] == ps2[a] && pv(v@)[b] == ps2[b]);
                    }
                }
            }
        }
    } else {
        proof {
            lemma_map_of_domain(ps);
            assert forall|j: int| 0 <= j < ps.len() implies ps[j].0 != k@ by {
                assert(v@[j].0@ != k@);
            }
            assert(!map_of(ps).contains_key(k@));
        }
        v.push((k, val));
        proof {
            assert(pv(v@).drop_last() =~= ps);
            assert(pv(v@).last() == (k@, val@));
            assert(map_of(pv(v@)) == map_of(ps).insert(k@, val@));
            assert(unique_keys(pv(v@))) by {
                assert forall|a: int, b: int| 0 <= a < b < pv(v@).len() implies pv(v@)[a].0 != pv(
                    v@,
                )[b].0 by {
                    if b == ps.len() {
                        assert(pv(v@)[a] == ps[a]);
                        assert(ps[a].0 != k@);
                    } else {
                        assert(pv(v@)[a] == ps[a] && pv(v@)[b] == ps[b]);
                    }
                }
            }
        }
    }
}

/// The listed identifiers with later repetitions dropped: first occurrence
/// order is kept.
pub open spec fn spec_dedup(ids: Seq<Seq<char>>) -> Seq<Seq<char>>
    decreases ids.len(),
{
    if ids.len() == 0 {
        Seq::empty()
    } else {
        let rest = spec_dedup(ids.drop_last());
        if rest.contains(ids.last()) {
            rest
        } else {
            rest.push(ids.last())
        }
    }
}

pub proof fn lemma_dedup_unique(ids: Seq<Seq<char>>)
    ensures
        unique_seq(spec_dedup(ids)),
        forall|y: Seq<char>| #[trigger] spec_dedup(ids).contains(y) <==> ids.contains(y),
    decreases ids.len(),
{
    if ids.len() > 0 {
        let dl = ids.drop_last();
        lemma_dedup_unique(dl);
        let rest = spec_dedup(dl);
        assert forall|y: Seq<char>| #[trigger] spec_dedup(ids).contains(y) implies ids.contains(
            y,
        ) by {
            if rest.contains(y) {
                assert(dl.contains(y));
                let i = choose|i: int| 0 <= i < dl.len() && dl[i] == y;
                assert(ids[i] == y);
            } else {
                assert(ids[ids.len() - 1] == y);
            }
        };
        assert forall|y: Seq<char>| ids.contains(y) implies #[trigger] spec_dedup(ids).contains(
            y,
        ) by {
            let i = choose|i: int| 0 <= i < ids.len() && ids[i] == y;
            if i < dl.len() {
                assert(dl[i] == y);
                assert(dl.contains(y));
                assert(rest.contains(y));
                if !rest.contains(ids.last()) {
                    let j = choose|j: int| 0 <= j < rest.len() && rest[j] == y;
                    assert(rest.push(ids.last())[j] == y);
                }
            } else {
                if !rest.contains(ids.last()) {
                    assert(rest.push(ids.last())[rest.len() as int] == y);
                }
            }
        };
        if !rest.contains(ids.last()) {
            assert forall|a: int, b: int|
                0 <= a < b < spec_dedup(ids).len() implies spec_dedup(ids)[a] != spec_dedup(
                ids,
            )[b] by {
                if b == rest.len() {
                    assert(spec_dedup(ids)[a] == rest[a]);
                    assert(rest.contains(rest[a]));
                } else {
                    assert(spec_dedup(ids)[a] == rest[a] && spec_dedup(ids)[b] == rest[b]);
                }
            }
        }
    }
}

/// The deduplicated copy of `ids`.
pub fn dedup_ids(ids: &Vec<String>) -> (r: Vec<String>)
    ensures
        r.deep_view() == spec_dedup(ids.deep_view()),
        unique_seq(r.deep_view()),
{
    let n = ids.len();
    let mut out: Vec<String> = Vec::new();
    let mut i: usize = 0;
    proof {
        assert(out.deep_view() =~= spec_dedup(ids.deep_view().take(0)));
    }
    while i < n
        invariant
            i <= n,
            n == ids@.len(),
            out.deep_view() == spec_dedup(ids.deep_view().take(i as int)),
            unique_seq(out.deep_view()),
        decreases n - i,
    {
        let ghost pre = ids.deep_view().take(i as int);
        let ghost cur = ids.deep_view().take(i + 1);
        proof {
            assert(cur.drop_last() =~= pre);
            assert(cur.last() == ids.deep_view()[i as int]);
        }
        let x = &ids[i];
        if !contains_str(&out, x) {
            let ghost s = out.deep_view();
            out.push(x.clone());
            proof {
                assert(out.deep_view() =~= s.push(x@));
                assert forall|a: int, b: int|
                    0 <= a < b < out.deep_view().len() implies out.deep_view()[a]
                    != out.deep_view()[b] by {
                    if b == s.len() {
                        assert(out.deep_view()[a] == s[a]);
                    }
                }
            }
        }
        i += 1;
    }
    proof {
        assert(ids.deep_view().take(n as int) =~= ids.deep_view());
    }
    out
}

/// The mathematical value of the whole tailer state: hand and stash as
/// sets of instance identifiers, the encounter as an ordered sequence of
/// template identifiers, the two associations as finite maps, the session
/// flags and the block assembly cursor.
#[verifier::ext_equal]
pub struct StateView {
    pub hand: Set<Seq<char>>,
    pub stash: Set<Seq<char>>,
    pub encounter: Seq<Seq<char>>,
    pub sockets: Map<Seq<char>, Seq<char>>,
    pub catalog: Map<Seq<char>, Seq<char>>,
    pub in_sync_block: bool,
    pub hand_cleared_this_sync: bool,
    pub cur_id: Seq<char>,
    pub cur_owner: Seq<char>,
    pub cur_socket: Seq<char>,
}

/// The template identifier an instance resolves to: the catalog entry, or
/// the instance identifier itself as a fallback.
pub open spec fn spec_resolve(catalog: Map<Seq<char>, Seq<char>>, iid: Seq<char>) -> Seq<char> {
    if catalog.contains_key(iid) {
        catalog[iid]
    } else {
        iid
    }
}

/// What a section field does: it finalizes the placement of the card the
/// assembly cursor currently describes. A player-owned item instance joins
/// the hand or the stash (clearing the stale hand once per block, on the
/// first hand placement); an opponent-owned instance joins the encounter,
/// deduplicated by resolved template; anything else is consumed silently.
pub open spec fn spec_place(v: StateView, section: Seq<char>) -> (StateView, bool) {
    if v.cur_id.len() == 0 {
        (v, false)
    } else if v.cur_owner == "Player"@ {
        if spec_is_item(v.cur_id) {
            let clear = !v.hand_cleared_this_sync && section == "Hand"@;
            let hand0 = if clear {
                Set::<Seq<char>>::empty()
            } else {
                v.hand
            };
            let hand1 = if section == "Hand"@ {
                hand0.insert(v.cur_id)
            } else {
                hand0
            };
            let stash1 = if section == "Hand"@ {
                v.stash
            } else {
                v.stash.insert(v.cur_id)
            };
            let sockets1 = if v.cur_socket.len() > 0 {
                v.sockets.insert(v.cur_socket, section)
            } else {
                v.sockets
            };
            (
                StateView {
                    hand: hand1,
                    stash: stash1,
                    sockets: sockets1,
                    hand_cleared_this_sync: v.hand_cleared_this_sync || clear,
                    ..v
                },
                true,
            )
        } else {
            (v, false)
        }
    } else if v.cur_owner == "Opponent"@ {
        let tid = spec_resolve(v.catalog, v.cur_id);
        if v.encounter.contains(tid) {
            (v, true)
        } else {
            (StateView { encounter: v.encounter.push(tid), ..v }, true)
        }
    } else {
        (v, false)
    }
}

/// The transition one event performs, and whether it left the state dirty
/// (in need of publication).
pub open spec fn spec_step(v: StateView, ev: EventView) -> (StateView, bool) {
    match ev {
        EventView::BlockOpen => if !v.in_sync_block {
            (
                StateView {
                    in_sync_block: true,
                    hand_cleared_this_sync: false,
                    encounter: Seq::empty(),
                    ..v
                },
                false,
            )
        } else {
            (v, false)
        },
        EventView::BlockClose => if v.in_sync_block {
            (StateView { in_sync_block: false, hand_cleared_this_sync: false, ..v }, true)
        } else {
            (v, false)
        },
        EventView::DealtBatch { ids } => (StateView { encounter: spec_dedup(ids), ..v }, true),
        EventView::Purchased { iid, tid, target } => {
            let v1 = StateView { catalog: v.catalog.insert(iid, tid), ..v };
            if spec_is_item(iid) {
                if spec_contains(target, "Storage"@) {
                    (StateView { stash: v1.stash.insert(iid), ..v1 }, true)
                } else if !v.in_sync_block {
                    (StateView { hand: v1.hand.insert(iid), ..v1 }, true)
                } else {
                    (v1, false)
                }
            } else {
                (v1, false)
            }
        },
        EventView::Sold { iid } => if !v.in_sync_block && spec_is_item(iid) {
            (StateView { hand: v.hand.remove(iid), stash: v.stash.remove(iid), ..v }, true)
        } else {
            (v, false)
        },
        EventView::FieldId { id } => if v.in_sync_block {
            (StateView { cur_id: id, ..v }, false)
        } else {
            (v, false)
        },
        EventView::FieldOwner { value } => if v.in_sync_block {
            (StateView { cur_owner: value, ..v }, false)
        } else {
            (v, false)
        },
        EventView::FieldSocket { value } => if v.in_sync_block {
            (StateView { cur_socket: value, ..v }, false)
        } else {
            (v, false)
        },
        EventView::FieldSection { value } => if v.in_sync_block {
            spec_place(v, value)
        } else {
            (v, false)
        },
        EventView::MoveToSocket { iid, socket } => if spec_is_item(iid) && v.sockets.contains_key(
            socket,
        ) {
            if v.sockets[socket] == "Hand"@ {
                (StateView { hand: v.hand.insert(iid), ..v }, true)
            } else {
                (StateView { stash: v.stash.insert(iid), ..v }, true)
            }
        } else {
            (v, false)
        },
    }
}

/// The state of a fresh session: everything empty, every flag down.
pub open spec fn spec_initial() -> StateView {
    StateView {
        hand: Set::empty(),
        stash: Set::empty(),
        encounter: Seq::empty(),
        sockets: Map::empty(),
        catalog: Map::empty(),
        in_sync_block: false,
        hand_cleared_this_sync: false,
        cur_id: Seq::empty(),
        cur_owner: Seq::empty(),
        cur_socket: Seq::empty(),
    }
}

/// The authoritative mutable snapshot the tailer owns. The vectors carry
/// no duplicates; `sockets` and `catalog` carry no repeated keys.
pub struct TailState {
    /// Instance identifiers currently in the player's hand.
    pub hand: Vec<String>,
    /// Instance identifiers currently in storage.
    pub stash: Vec<String>,
    /// Template identifiers of the current encounter, in discovery order.
    pub encounter: Vec<String>,
    /// Remembered socket-to-section associations.
    pub sockets: Vec<(String, String)>,
    /// The instance catalog: instance to template identifier.
    pub catalog: Vec<(String, String)>,
    /// Whether a structured block is being assembled.
    pub in_sync_block: bool,
    /// Whether the hand was already cleared during this block.
    pub hand_cleared_this_sync: bool,
    /// Assembly cursor: the pending card identifier.
    pub cur_id: String,
    /// Assembly cursor: its owner.
    pub cur_owner: String,
    /// Assembly cursor: its socket.
    pub cur_socket: String,
}

impl View for TailState {
    type V = StateView;

    open spec fn view(&self) -> StateView {
        StateView {
            hand: self.hand.deep_view().to_set(),
            stash: self.stash.deep_view().to_set(),
            encounter: self.encounter.deep_view(),
            sockets: map_of(pv(self.sockets@)),
            catalog: map_of(pv(self.catalog@)),
            in_sync_block: self.in_sync_block,
            hand_cleared_this_sync: self.hand_cleared_this_sync,
            cur_id: self.cur_id@,
            cur_owner: self.cur_owner@,
            cur_socket: self.cur_socket@,
        }
    }
}

impl TailState {
    /// The representation carries no duplicate entries and no repeated keys.
    pub open spec fn wf(&self) -> bool {
        &&& unique_seq(self.hand.deep_view())
        &&& unique_seq(self.stash.deep_view())
        &&& unique_seq(self.encounter.deep_view())
        &&& unique_keys(pv(self.sockets@))
        &&& unique_keys(pv(self.catalog@))
    }

    /// A fresh, empty state.
    pub fn new() -> (r: TailState)
        ensures
            r.wf(),
            r@ == spec_initial(),
    {
        let r = TailState {
            hand: Vec::new(),
            stash: Vec::new(),
            encounter: Vec::new(),
            sockets: Vec::new(),
            catalog: Vec::new(),
            in_sync_block: false,
            hand_cleared_this_sync: false,
            cur_id: String::new(),
            cur_owner: String::new(),
            cur_socket: String::new(),
        };
        proof {
            assert(r.hand.deep_view().to_set() =~= Set::<Seq<char>>::empty());
            assert(r.stash.deep_view().to_set() =~= Set::<Seq<char>>::empty());
            assert(r.encounter.deep_view() =~= Seq::<Seq<char>>::empty());
            assert(pv(r.sockets@) =~= Seq::<(Seq<char>, Seq<char>)>::empty());
            assert(pv(r.catalog@) =~= Seq::<(Seq<char>, Seq<char>)>::empty());
            assert(r@ =~= spec_initial());
        }
        r
    }

    /// Record one instance-to-template association (idempotent upsert).
    pub fn record(&mut self, iid: &String, tid: &String)
        requires
            old(self).wf(),
        ensures
            final (self).wf(),
            final (self)@ == (StateView {
                catalog: old(self)@.catalog.insert(iid@, tid@),
                ..old(self)@
            }),
    {
        map_upsert(&mut self.catalog, iid.clone(), tid.clone());
        proof {
            assert(final (self)@ =~= (StateView {
                catalog: old(self)@.catalog.insert(iid@, tid@),
                ..old(self)@
            }));
        }
    }

    /// The template identifier an instance resolves to; an instance the
    /// catalog does not know falls back to its own identifier.
    pub fn resolve(&self, iid: &String) -> (r: String)
        requires
            self.wf(),
        ensures
            r@ == spec_resolve(self@.catalog, iid@),
    {
        match map_get(&self.catalog, iid) {
            Some(t) => t,
            None => iid.clone(),
        }
    }

    /// Apply one extracted event; the result says whether the state is
    /// dirty and a snapshot should be published once outside a block.
    pub fn apply_event(&mut self, ev: &Event) -> (dirty: bool)
        requires
            old(self).wf(),
        ensures
            final (self).wf(),
            (final (self)@, dirty) == spec_step(old(self)@, ev.deep_view()),
    {
        match ev {
            Event::BlockOpen => {
                if !self.in_sync_block {
                    self.in_sync_block = true;
                    self.hand_cleared_this_sync = false;
                    self.encounter = Vec::new();
                    proof {
                        assert(self.encounter.deep_view() =~= Seq::<Seq<char>>::empty());
                        assert(final (self)@ =~= spec_step(old(self)@, ev.deep_view()).0);
                    }
                }
                false
            },
            Event::BlockClose => {
                if self.in_sync_block {
                    self.in_sync_block = false;
                    self.hand_cleared_this_sync = false;
                    proof {
                        assert(final (self)@ =~= spec_step(old(self)@, ev.deep_view()).0);
                    }
                    true
                } else {
                    false
                }
            },
            Event::DealtBatch { ids } => {
                self.encounter = dedup_ids(ids);
                proof {
                    assert(final (self)@ =~= spec_step(old(self)@, ev.deep_view()).0);
                }
                true
            },
            Event::Purchased { iid, tid, target } => {
                map_upsert(&mut self.catalog, iid.clone(), tid.clone());
                let mut dirty: bool = false;
                if is_item_instance(iid.as_str()) {
                    let tc = str_chars(target.as_str());
                    let storage = str_chars("Storage");
                    if contains_sub(&tc, &storage) {
                        insert_unique(&mut self.stash, iid.clone());
                        dirty = true;
                    } else if !self.in_sync_block {
                        insert_unique(&mut self.hand, iid.clone());
                        dirty = true;
                    }
                }
                proof {
                    assert(final (self)@ =~= spec_step(old(self)@, ev.deep_view()).0);
                }
                dirty
            },
            Event::Sold { iid } => {
                if !self.in_sync_block && is_item_instance(iid.as_str()) {
                    remove_str(&mut self.hand, iid);
                    remove_str(&mut self.stash, iid);
                    proof {
                        assert(final (self)@ =~= spec_step(old(self)@, ev.deep_view()).0);
                    }
                    true
                } else {
                    false
                }
            },
            Event::FieldId { id } => {
                if self.in_sync_block {
                    self.cur_id = id.clone();
                    proof {
                        assert(final (self)@ =~= spec_step(old(self)@, ev.deep_view()).0);
                    }
                }
                false
            },
            Event::FieldOwner { value } => {
                if self.in_sync_block {
                    self.cur_owner = value.clone();
                    proof {
                        assert(final (self)@ =~= spec_step(old(self)@, ev.deep_view()).0);
                    }
                }
                false
            },
            Event::FieldSocket { value } => {
                if self.in_sync_block {
                    self.cur_socket = value.clone();
                    proof {
                        assert(final (self)@ =~= spec_step(old(self)@, ev.deep_view()).0);
                    }
                }
                false
            },
            Event::FieldSection { value } => {
                if self.in_sync_block {
                    self.place(value)
                } else {
                    false
                }
            },
            Event::MoveToSocket { iid, socket } => {
                if is_item_instance(iid.as_str()) {
                    match map_get(&self.sockets, socket) {
                        Some(sec) => {
                            if str_eq(sec.as_str(), "Hand") {
                                insert_unique(&mut self.hand, iid.clone());
                            } else {
                                insert_unique(&mut self.stash, iid.clone());
                            }
                            proof {
                                assert(final (self)@ =~= spec_step(old(self)@, ev.deep_view()).0);
                            }
                            true
                        },
                        None => false,
                    }
                } else {
                    false
                }
            },
        }
    }

    /// Finalize a placement from a section field; only called inside a block.
    fn place(&mut self, value: &String) -> (dirty: bool)
        requires
            old(self).wf(),
            old(self).in_sync_block,
        ensures
            final (self).wf(),
            (final (self)@, dirty) == spec_place(old(self)@, value@),
    {
        if self.cur_id.as_str().is_empty() {
            return false;
        }
        if str_eq(self.cur_owner.as_str(), "Player") {
            if is_item_instance(self.cur_id.as_str()) {
                let sec_hand = str_eq(value.as_str(), "Hand");
                if !self.hand_cleared_this_sync && sec_hand {
                    self.hand = Vec::new();
                    self.hand_cleared_this_sync = true;
                    proof {
                        assert(self.hand.deep_view().to_set() =~= Set::<Seq<char>>::empty());
                    }
                }
                if sec_hand {
                    let id = self.cur_id.clone();
                    insert_unique(&mut self.hand, id);
                } else {
                    let id = self.cur_id.clone();
                    insert_unique(&mut self.stash, id);
                }
                if !self.cur_socket.as_str().is_empty() {
                    let k = self.cur_socket.clone();
                    map_upsert(&mut self.sockets, k, value.clone());
                }
                proof {
                    assert(final (self)@ =~= spec_place(old(self)@, value@).0);
                }
                true
            } else {
                false
            }
        } else if str_eq(self.cur_owner.as_str(), "Opponent") {
            let tid = match map_get(&self.catalog, &self.cur_id) {
                Some(t) => t,
                None => self.cur_id.clone(),
            };
            insert_unique(&mut self.encounter, tid);
            proof {
                assert(final (self)@ =~= spec_place(old(self)@, value@).0);
            }
            true
        } else {
            false
        }
    }
}

} // verus!

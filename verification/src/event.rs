//! The pattern extractor: one trimmed log line becomes at most one typed
//! event. Extraction is a total function; a line that matches nothing is
//! simply not an event.
//!
//! The grammar is token-oriented: fields inside a line are runs of
//! non-whitespace characters separated by spaces or tabs, and bracketed
//! fields are a fixed prefix followed by a nonempty run up to `]`.
use vstd::prelude::*;

use crate::text::{
    contains_sub, find_bracket, find_from, has_at, digits_end, is_ws, lemma_find_bounds,
    match_at, skip_ws, spec_contains, spec_digits_end, spec_find, spec_find_bracket,
    spec_scan_brackets, spec_skip_ws, spec_token_end, str_chars, token_end,
};

verus! {

/// A typed event read off one log line.
pub enum Event {
    /// A card or effect was acquired, with its destination.
    Purchased { iid: String, tid: String, target: String },
    /// An instance was sold or removed.
    Sold { iid: String },
    /// A structured multi-line resynchronization block begins.
    BlockOpen,
    /// The structured block has finished.
    BlockClose,
    /// A bulk listing of encounter identifiers on one line.
    DealtBatch { ids: Vec<String> },
    /// A card-identifier field inside a block.
    FieldId { id: String },
    /// An owner field inside a block.
    FieldOwner { value: String },
    /// A socket field inside a block.
    FieldSocket { value: String },
    /// A section field inside a block; the only field that finalizes a
    /// placement.
    FieldSection { value: String },
    /// An item was relocated to a named socket with no section given.
    MoveToSocket { iid: String, socket: String },
}

/// The mathematical value of an event: every text field as its character
/// sequence.
pub enum EventView {
    Purchased { iid: Seq<char>, tid: Seq<char>, target: Seq<char> },
    Sold { iid: Seq<char> },
    BlockOpen,
    BlockClose,
    DealtBatch { ids: Seq<Seq<char>> },
    FieldId { id: Seq<char> },
    FieldOwner { value: Seq<char> },
    FieldSocket { value: Seq<char> },
    FieldSection { value: Seq<char> },
    MoveToSocket { iid: Seq<char>, socket: Seq<char> },
}

impl DeepView for Event {
    type V = EventView;

    open spec fn deep_view(&self) -> EventView {
        match self {
            Event::Purchased { iid, tid, target } => EventView::Purchased {
                iid: iid@,
                tid: tid@,
                target: target@,
            },
            Event::Sold { iid } => EventView::Sold { iid: iid@ },
            Event::BlockOpen => EventView::BlockOpen,
            Event::BlockClose => EventView::BlockClose,
            Event::DealtBatch { ids } => EventView::DealtBatch { ids: ids.deep_view() },
            Event::FieldId { id } => EventView::FieldId { id: id@ },
            Event::FieldOwner { value } => EventView::FieldOwner { value: value@ },
            Event::FieldSocket { value } => EventView::FieldSocket { value: value@ },
            Event::FieldSection { value } => EventView::FieldSection { value: value@ },
            Event::MoveToSocket { iid, socket } => EventView::MoveToSocket {
                iid: iid@,
                socket: socket@,
            },
        }
    }
}

/// A purchase line: the marker, then the instance id, a dash, `TemplateId`,
/// the template id, a dash, and `Target:` with the destination.
pub open spec fn spec_parse_purchase(s: Seq<char>) -> Option<(Seq<char>, Seq<char>, Seq<char>)> {
    let mark = "Card Purchased: InstanceId:"@;
    match spec_find(s, mark, 0) {
        None => None,
        Some(p) => {
            let j = spec_skip_ws(s, p + mark.len());
            let je = spec_token_end(s, j);
            if je <= j {
                None
            } else {
                let k = spec_skip_ws(s, je);
                if k < s.len() && s[k] == '-' {
                    let t0 = spec_skip_ws(s, k + 1);
                    let tmpl = "TemplateId"@;
                    if match_at(s, tmpl, t0) {
                        let t1 = spec_skip_ws(s, t0 + tmpl.len());
                        let t2 = spec_token_end(s, t1);
                        if t2 <= t1 {
                            None
                        } else {
                            let g0 = spec_skip_ws(s, t2);
                            if g0 < s.len() && s[g0] == '-' {
                                let g1 = spec_skip_ws(s, g0 + 1);
                                let tgt = "Target:"@;
                                if match_at(s, tgt, g1) {
                                    let g2 = g1 + tgt.len();
                                    let g3 = spec_token_end(s, g2);
                                    if g3 <= g2 {
                                        None
                                    } else {
                                        Some(
                                            (
                                                s.subrange(j, je),
                                                s.subrange(t1, t2),
                                                s.subrange(g2, g3),
                                            ),
                                        )
                                    }
                                } else {
                                    None
                                }
                            } else {
                                None
                            }
                        }
                    } else {
                        None
                    }
                } else {
                    None
                }
            }
        },
    }
}

/// A sale line: the leftmost removal marker, at least one whitespace
/// character, then the instance id.
pub open spec fn spec_parse_sold(s: Seq<char>) -> Option<Seq<char>> {
    let m1 = "Successfully removed item"@;
    let m2 = "Sold Card"@;
    let pos: Option<int> = match (spec_find(s, m1, 0), spec_find(s, m2, 0)) {
        (Some(a), Some(b)) => if a <= b {
            Some(a + m1.len())
        } else {
            Some(b + m2.len())
        },
        (Some(a), None) => Some(a + m1.len()),
        (None, Some(b)) => Some(b + m2.len()),
        (None, None) => None,
    };
    match pos {
        None => None,
        Some(e) => {
            if e < s.len() && is_ws(s[e]) {
                let j = spec_skip_ws(s, e);
                let je = spec_token_end(s, j);
                if je <= j {
                    None
                } else {
                    Some(s.subrange(j, je))
                }
            } else {
                None
            }
        },
    }
}

/// A socket-move line: the marker, the instance id, then ` to Socket_` and
/// at least one digit. The socket name is `Socket_` with its digits.
pub open spec fn spec_parse_move(s: Seq<char>) -> Option<(Seq<char>, Seq<char>)> {
    let mark = "Successfully moved card "@;
    match spec_find(s, mark, 0) {
        None => None,
        Some(p) => {
            let j = p + mark.len();
            let je = spec_token_end(s, j);
            if je <= j {
                None
            } else {
                let t = " to Socket_"@;
                if match_at(s, t, je) {
                    let d0 = je + t.len();
                    let d1 = spec_digits_end(s, d0);
                    if d1 <= d0 {
                        None
                    } else {
                        Some((s.subrange(j, je), s.subrange(je + 4, d1)))
                    }
                } else {
                    None
                }
            }
        },
    }
}

/// The first bracketed field with the given prefix, if any.
pub open spec fn spec_field(s: Seq<char>, prefix: Seq<char>) -> Option<Seq<char>> {
    match spec_find_bracket(s, prefix, 0) {
        None => None,
        Some((b, rb)) => Some(s.subrange(b, rb)),
    }
}

/// What one trimmed line means, if anything. The patterns are tried in a
/// fixed order and the first that applies wins; the three marker tests come
/// first so that a bulk `Cards Dealt` listing is never read as a lone
/// identifier field.
pub open spec fn spec_extract(s: Seq<char>) -> Option<EventView> {
    if spec_contains(s, "Cards Spawned:"@) {
        Some(EventView::BlockOpen)
    } else if spec_contains(s, "Finished processing"@) {
        Some(EventView::BlockClose)
    } else if spec_contains(s, "Cards Dealt"@) {
        Some(EventView::DealtBatch { ids: spec_scan_brackets(s, "ID: ["@, 0) })
    } else if spec_parse_purchase(s) is Some {
        let t = spec_parse_purchase(s)->Some_0;
        Some(EventView::Purchased { iid: t.0, tid: t.1, target: t.2 })
    } else if spec_parse_sold(s) is Some {
        Some(EventView::Sold { iid: spec_parse_sold(s)->Some_0 })
    } else if spec_parse_move(s) is Some {
        let t = spec_parse_move(s)->Some_0;
        Some(EventView::MoveToSocket { iid: t.0, socket: t.1 })
    } else if spec_field(s, "- Owner: ["@) is Some {
        Some(EventView::FieldOwner { value: spec_field(s, "- Owner: ["@)->Some_0 })
    } else if spec_field(s, "- Section: ["@) is Some {
        Some(EventView::FieldSection { value: spec_field(s, "- Section: ["@)->Some_0 })
    } else if spec_field(s, "- Socket: ["@) is Some {
        Some(EventView::FieldSocket { value: spec_field(s, "- Socket: ["@)->Some_0 })
    } else if spec_field(s, "ID: ["@) is Some {
        Some(EventView::FieldId { id: spec_field(s, "ID: ["@)->Some_0 })
    } else {
        None
    }
}

pub(crate) fn parse_purchase(line: &str, cs: &Vec<char>) -> (r: Option<(String, String, String)>)
    requires
        cs@ == line@,
    ensures
        match r {
            Some(t) => spec_parse_purchase(line@) == Some((t.0@, t.1@, t.2@)),
            None => spec_parse_purchase(line@) is None,
        },
{
    let n = cs.len();
    let mark = str_chars("Card Purchased: InstanceId:");
    let p = match find_from(cs, &mark, 0) {
        None => {
            return None;
        },
        Some(p) => p,
    };
    proof {
        lemma_find_bounds(cs@, mark@, 0);
    }
    let j = skip_ws(cs, p + mark.len());
    let je = token_end(cs, j);
    if je <= j {
        return None;
    }
    let k = skip_ws(cs, je);
    if !(k < n && cs[k] == '-') {
        return None;
    }
    let t0 = skip_ws(cs, k + 1);
    let tmpl = str_chars("TemplateId");
    if !has_at(cs, &tmpl, t0) {
        return None;
    }
    let t1 = skip_ws(cs, t0 + tmpl.len());
    let t2 = token_end(cs, t1);
    if t2 <= t1 {
        return None;
    }
    let g0 = skip_ws(cs, t2);
    if !(g0 < n && cs[g0] == '-') {
        return None;
    }
    let g1 = skip_ws(cs, g0 + 1);
    let tgt = str_chars("Target:");
    if !has_at(cs, &tgt, g1) {
        return None;
    }
    let g2 = g1 + tgt.len();
    let g3 = token_end(cs, g2);
    if g3 <= g2 {
        return None;
    }
    let iid = line.substring_char(j, je).to_owned();
    let tid = line.substring_char(t1, t2).to_owned();
    let target = line.substring_char(g2, g3).to_owned();
    Some((iid, tid, target))
}

fn parse_sold(line: &str, cs: &Vec<char>) -> (r: Option<String>)
    requires
        cs@ == line@,
    ensures
        match r {
            Some(t) => spec_parse_sold(line@) == Some(t@),
            None => spec_parse_sold(line@) is None,
        },
{
    let n = cs.len();
    let m1 = str_chars("Successfully removed item");
    let m2 = str_chars("Sold Card");
    let f1 = find_from(cs, &m1, 0);
    let f2 = find_from(cs, &m2, 0);
    let e: usize = match (f1, f2) {
        (Some(a), Some(b)) => {
            proof {
                lemma_find_bounds(cs@, m1@, 0);
                lemma_find_bounds(cs@, m2@, 0);
            }
            if a <= b {
                a + m1.len()
            } else {
                b + m2.len()
            }
        },
        (Some(a), None) => {
            proof {
                lemma_find_bounds(cs@, m1@, 0);
            }
            a + m1.len()
        },
        (None, Some(b)) => {
            proof {
                lemma_find_bounds(cs@, m2@, 0);
            }
            b + m2.len()
        },
        (None, None) => {
            return None;
        },
    };
    if !(e < n && (cs[e] == ' ' || cs[e] == '\t')) {
        return None;
    }
    let j = skip_ws(cs, e);
    let je = token_end(cs, j);
    if je <= j {
        return None;
    }
    Some(line.substring_char(j, je).to_owned())
}

fn parse_move(line: &str, cs: &Vec<char>) -> (r: Option<(String, String)>)
    requires
        cs@ == line@,
    ensures
        match r {
            Some(t) => spec_parse_move(line@) == Some((t.0@, t.1@)),
            None => spec_parse_move(line@) is None,
        },
{
    let n = cs.len();
    let mark = str_chars("Successfully moved card ");
    let p = match find_from(cs, &mark, 0) {
        None => {
            return None;
        },
        Some(p) => p,
    };
    proof {
        lemma_find_bounds(cs@, mark@, 0);
    }
    let j = p + mark.len();
    let je = token_end(cs, j);
    if je <= j {
        return None;
    }
    let t = str_chars(" to Socket_");
    if !has_at(cs, &t, je) {
        return None;
    }
    proof {
        reveal_strlit(" to Socket_");
    }
    let d0 = je + t.len();
    let d1 = digits_end(cs, d0);
    if d1 <= d0 {
        return None;
    }
    let iid = line.substring_char(j, je).to_owned();
    let socket = line.substring_char(je + 4, d1).to_owned();
    Some((iid, socket))
}

fn parse_field(line: &str, cs: &Vec<char>, prefix: &str) -> (r: Option<String>)
    requires
        cs@ == line@,
        prefix@.len() >= 1,
    ensures
        match r {
            Some(t) => spec_field(line@, prefix@) == Some(t@),
            None => spec_field(line@, prefix@) is None,
        },
{
    let pc = str_chars(prefix);
    match find_bracket(cs, &pc, 0) {
        None => None,
        Some((b, rb)) => Some(line.substring_char(b, rb).to_owned()),
    }
}

/// All bracketed fields with the given prefix, in order, as owned strings.
fn scan_fields(line: &str, cs: &Vec<char>, prefix: &str) -> (r: Vec<String>)
    requires
        cs@ == line@,
        prefix@.len() >= 1,
    ensures
        r.deep_view() == spec_scan_brackets(line@, prefix@, 0),
{
    let pc = str_chars(prefix);
    let n = cs.len();
    let mut out: Vec<String> = Vec::new();
    let mut i: usize = 0;
    loop
        invariant
            n == cs@.len(),
            i <= cs@.len(),
            cs@ == line@,
            pc@ == prefix@,
            pc@.len() >= 1,
            spec_scan_brackets(line@, prefix@, 0) == out.deep_view() + spec_scan_brackets(
                line@,
                prefix@,
                i as int,
            ),
        decreases cs@.len() - i + 1,
    {
        match find_bracket(cs, &pc, i) {
            None => {
                proof {
                    assert(out.deep_view() + spec_scan_brackets(line@, prefix@, i as int)
                        =~= out.deep_view());
                }
                return out;
            },
            Some((b, rb)) => {
                let ghost old_out = out.deep_view();
                let tok = line.substring_char(b, rb).to_owned();
                out.push(tok);
                proof {
                    assert(out.deep_view() =~= old_out.push(line@.subrange(b as int, rb as int)));
                    assert(out.deep_view() + spec_scan_brackets(line@, prefix@, rb + 1) =~= old_out
                        + spec_scan_brackets(line@, prefix@, i as int));
                }
                i = rb + 1;
            },
        }
    }
}

/// Turn one trimmed log line into its event, if it carries one.
pub fn extract_event(line: &str) -> (r: Option<Event>)
    ensures
        r.deep_view() == spec_extract(line@),
{
    proof {
        reveal_strlit("- Owner: [");
        reveal_strlit("- Section: [");
        reveal_strlit("- Socket: [");
        reveal_strlit("ID: [");
    }
    let cs = str_chars(line);
    let open_pat = str_chars("Cards Spawned:");
    if contains_sub(&cs, &open_pat) {
        return Some(Event::BlockOpen);
    }
    let close_pat = str_chars("Finished processing");
    if contains_sub(&cs, &close_pat) {
        return Some(Event::BlockClose);
    }
    let dealt_pat = str_chars("Cards Dealt");
    if contains_sub(&cs, &dealt_pat) {
        let ids = scan_fields(line, &cs, "ID: [");
        return Some(Event::DealtBatch { ids });
    }
    match parse_purchase(line, &cs) {
        Some((iid, tid, target)) => {
            return Some(Event::Purchased { iid, tid, target });
        },
        None => {},
    }
    match parse_sold(line, &cs) {
        Some(iid) => {
            return Some(Event::Sold { iid });
        },
        None => {},
    }
    match parse_move(line, &cs) {
        Some((iid, socket)) => {
            return Some(Event::MoveToSocket { iid, socket });
        },
        None => {},
    }
    match parse_field(line, &cs, "- Owner: [") {
        Some(value) => {
            return Some(Event::FieldOwner { value });
        },
        None => {},
    }
    match parse_field(line, &cs, "- Section: [") {
        Some(value) => {
            return Some(Event::FieldSection { value });
        },
        None => {},
    }
    match parse_field(line, &cs, "- Socket: [") {
        Some(value) => {
            return Some(Event::FieldSocket { value });
        },
        None => {},
    }
    match parse_field(line, &cs, "ID: [") {
        Some(id) => {
            return Some(Event::FieldId { id });
        },
        None => {},
    }
    None
}

} // verus!

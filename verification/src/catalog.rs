//! The static catalogs: item and monster display data keyed by template
//! identifier, the lookup that re-attaches the key to the record, and the
//! case-insensitive monster search.
use vstd::prelude::*;

use crate::text::{contains_sub, spec_contains, str_chars};

verus! {

/// One enchantment of an item.
pub struct Enchantment {
    pub id: String,
    pub name: String,
    pub description: String,
}

/// Display data of one item template.
pub struct ItemData {
    pub id: Option<String>,
    pub name_zh: String,
    pub enchantments: Option<Vec<Enchantment>>,
    pub image: Option<String>,
}

/// One skill or item belonging to a monster.
pub struct MonsterSubItem {
    pub name: String,
    pub description: String,
    pub image: String,
}

/// Display data of one monster template.
pub struct MonsterData {
    pub name: String,
    pub name_zh: String,
    pub skills: Vec<MonsterSubItem>,
    pub items: Vec<MonsterSubItem>,
    pub image: String,
}

#[verifier::ext_equal]
pub struct EnchantmentV {
    pub id: Seq<char>,
    pub name: Seq<char>,
    pub description: Seq<char>,
}

#[verifier::ext_equal]
pub struct ItemDataV {
    pub id: Option<Seq<char>>,
    pub name_zh: Seq<char>,
    pub enchantments: Option<Seq<EnchantmentV>>,
    pub image: Option<Seq<char>>,
}

#[verifier::ext_equal]
pub struct MonsterSubItemV {
    pub name: Seq<char>,
    pub description: Seq<char>,
    pub image: Seq<char>,
}

#[verifier::ext_equal]
pub struct MonsterDataV {
    pub name: Seq<char>,
    pub name_zh: Seq<char>,
    pub skills: Seq<MonsterSubItemV>,
    pub items: Seq<MonsterSubItemV>,
    pub image: Seq<char>,
}

impl DeepView for Enchantment {
    type V = EnchantmentV;

    open spec fn deep_view(&self) -> EnchantmentV {
        EnchantmentV { id: self.id@, name: self.name@, description: self.description@ }
    }
}

impl DeepView for ItemData {
    type V = ItemDataV;

    open spec fn deep_view(&self) -> ItemDataV {
        ItemDataV {
            id: self.id.deep_view(),
            name_zh: self.name_zh@,
            enchantments: self.enchantments.deep_view(),
            image: self.image.deep_view(),
        }
    }
}

impl DeepView for MonsterSubItem {
    type V = MonsterSubItemV;

    open spec fn deep_view(&self) -> MonsterSubItemV {
        MonsterSubItemV { name: self.name@, description: self.description@, image: self.image@ }
    }
}

impl DeepView for MonsterData {
    type V = MonsterDataV;

    open spec fn deep_view(&self) -> MonsterDataV {
        MonsterDataV {
            name: self.name@,
            name_zh: self.name_zh@,
            skills: self.skills.deep_view(),
            items: self.items.deep_view(),
            image: self.image@,
        }
    }
}

impl Clone for Enchantment {
    fn clone(&self) -> (r: Self)
        ensures
            r.deep_view() == self.deep_view(),
    {
        Enchantment {
            id: self.id.clone(),
            name: self.name.clone(),
            description: self.description.clone(),
        }
    }
}

fn clone_enchantments(v: &Vec<Enchantment>) -> (r: Vec<Enchantment>)
    ensures
        r.deep_view() == v.deep_view(),
{
    let n = v.len();
    let mut out: Vec<Enchantment> = Vec::new();
    let mut i: usize = 0;
    while i < n
        invariant
            i <= n,
            n == v@.len(),
            out.deep_view() =~= v.deep_view().take(i as int),
        decreases n - i,
    {
        let ghost s = out.deep_view();
        let c = v[i].clone();
        out.push(c);
        proof {
            assert(out.deep_view() =~= s.push(v.deep_view()[i as int]));
            assert(out.deep_view() =~= v.deep_view().take(i + 1));
        }
        i += 1;
    }
    proof {
        assert(v.deep_view().take(n as int) =~= v.deep_view());
    }
    out
}

impl Clone for ItemData {
    fn clone(&self) -> (r: Self)
        ensures
            r.deep_view() == self.deep_view(),
    {
        let id: Option<String> = match &self.id {
            Some(s) => Some(s.clone()),
            None => None,
        };
        let enchantments: Option<Vec<Enchantment>> = match &self.enchantments {
            Some(v) => Some(clone_enchantments(v)),
            None => None,
        };
        let image: Option<String> = match &self.image {
            Some(s) => Some(s.clone()),
            None => None,
        };
        let r = ItemData { id, name_zh: self.name_zh.clone(), enchantments, image };
        proof {
            assert(r.deep_view() =~= self.deep_view());
        }
        r
    }
}

impl Clone for MonsterSubItem {
    fn clone(&self) -> (r: Self)
        ensures
            r.deep_view() == self.deep_view(),
    {
        MonsterSubItem {
            name: self.name.clone(),
            description: self.description.clone(),
            image: self.image.clone(),
        }
    }
}

fn clone_sub_items(v: &Vec<MonsterSubItem>) -> (r: Vec<MonsterSubItem>)
    ensures
        r.deep_view() == v.deep_view(),
{
    let n = v.len();
    let mut out: Vec<MonsterSubItem> = Vec::new();
    let mut i: usize = 0;
    while i < n
        invariant
            i <= n,
            n == v@.len(),
            out.deep_view() =~= v.deep_view().take(i as int),
        decreases n - i,
    {
        let ghost s = out.deep_view();
        let c = v[i].clone();
        out.push(c);
        proof {
            assert(out.deep_view() =~= s.push(v.deep_view()[i as int]));
            assert(out.deep_view() =~= v.deep_view().take(i + 1));
        }
        i += 1;
    }
    proof {
        assert(v.deep_view().take(n as int) =~= v.deep_view());
    }
    out
}

impl Clone for MonsterData {
    fn clone(&self) -> (r: Self)
        ensures
            r.deep_view() == self.deep_view(),
    {
        let r = MonsterData {
            name: self.name.clone(),
            name_zh: self.name_zh.clone(),
            skills: clone_sub_items(&self.skills),
            items: clone_sub_items(&self.items),
            image: self.image.clone(),
        };
        proof {
            assert(r.deep_view() =~= self.deep_view());
        }
        r
    }
}

/// The character-sequence value of the item entries.
pub open spec fn ipv(v: Seq<(String, ItemData)>) -> Seq<(Seq<char>, ItemDataV)> {
    Seq::new(v.len(), |i: int| (v[i].0@, v[i].1.deep_view()))
}

/// The character-sequence value of the monster entries.
pub open spec fn mpv(v: Seq<(String, MonsterData)>) -> Seq<(Seq<char>, MonsterDataV)> {
    Seq::new(v.len(), |i: int| (v[i].0@, v[i].1.deep_view()))
}

/// No two entries share a key.
pub open spec fn unique_keys_g<V>(ps: Seq<(Seq<char>, V)>) -> bool {
    forall|i: int, j: int| 0 <= i < j < ps.len() ==> ps[i].0 != ps[j].0
}

/// The finite map a pair sequence denotes; a later entry wins.
pub open spec fn map_of_g<V>(ps: Seq<(Seq<char>, V)>) -> Map<Seq<char>, V>
    decreases ps.len(),
{
    if ps.len() == 0 {
        Map::empty()
    } else {
        map_of_g(ps.drop_last()).insert(ps.last().0, ps.last().1)
    }
}

pub proof fn lemma_map_of_g_domain<V>(ps: Seq<(Seq<char>, V)>)
    ensures
        forall|k: Seq<char>| #[trigger]
            map_of_g(ps).contains_key(k) <==> exists|i: int| 0 <= i < ps.len() && ps[i].0 == k,
    decreases ps.len(),
{
    if ps.len() > 0 {
        let dl = ps.drop_last();
        lemma_map_of_g_domain(dl);
        assert forall|k: Seq<char>| #[trigger] map_of_g(ps).contains_key(k) implies exists|i: int|
            0 <= i < ps.len() && ps[i].0 == k by {
            if k == ps.last().0 {
                assert(ps[ps.len() - 1].0 == k);
            } else {
                assert(map_of_g(dl).contains_key(k));
                let i = choose|i: int| 0 <= i < dl.len() && dl[i].0 == k;
                assert(dl[i] == ps[i]);
                assert(ps[i].0 == k);
            }
        };
        assert forall|k: Seq<char>|
            (exists|i: int| 0 <= i < ps.len() && ps[i].0 == k) implies #[trigger] map_of_g(
            ps,
        ).contains_key(k) by {
            let i = choose|i: int| 0 <= i < ps.len() && ps[i].0 == k;
            if i < ps.len() - 1 {
                assert(dl[i] == ps[i]);
                assert(dl[i].0 == k);
                assert(map_of_g(dl).contains_key(k));
            }
        };
    }
}

pub proof fn lemma_map_of_g_at<V>(ps: Seq<(Seq<char>, V)>, i: int)
    requires
        unique_keys_g(ps),
        0 <= i < ps.len(),
    ensures
        map_of_g(ps).contains_key(ps[i].0),
        map_of_g(ps)[ps[i].0] == ps[i].1,
    decreases ps.len(),
{
    let dl = ps.drop_last();
    if i < ps.len() - 1 {
        assert(unique_keys_g(dl)) by {
            assert(forall|a: int, b: int|
                0 <= a < b < dl.len() ==> dl[a] == ps[a] && dl[b] == ps[b]);
        }
        lemma_map_of_g_at(dl, i);
        assert(ps[i].0 != ps.last().0);
    }
}

/// The item catalog: template identifier to display record, keys unique.
pub struct ItemMap {
    pub entries: Vec<(String, ItemData)>,
}

impl ItemMap {
    pub open spec fn wf(&self) -> bool {
        unique_keys_g(ipv(self.entries@))
    }

    pub open spec fn view(&self) -> Map<Seq<char>, ItemDataV> {
        map_of_g(ipv(self.entries@))
    }

    pub fn new() -> (r: ItemMap)
        ensures
            r.wf(),
            r.view() == Map::<Seq<char>, ItemDataV>::empty(),
    {
        let r = ItemMap { entries: Vec::new() };
        proof {
            assert(ipv(r.entries@) =~= Seq::<(Seq<char>, ItemDataV)>::empty());
        }
        r
    }

    /// Add one record; a key already present keeps its first record.
    pub fn insert(&mut self, key: String, value: ItemData)
        requires
            old(self).wf(),
        ensures
            final (self).wf(),
            final (self).view() == if old(self).view().contains_key(key@) {
                old(self).view()
            } else {
                old(self).view().insert(key@, value.deep_view())
            },
    {
        proof {
            assert(unique_keys_g(ipv(old(self).entries@)));
            lemma_map_of_g_domain(ipv(self.entries@));
        }
        let n = self.entries.len();
        let mut i: usize = 0;
        while i < n
            invariant
                i <= n,
                n == self.entries@.len(),
                self == old(self),
                old(self).wf(),
                forall|j: int| 0 <= j < i ==> self.entries@[j].0@ != key@,
            decreases n - i,
        {
            if crate::state::str_eq(self.entries[i].0.as_str(), key.as_str()) {
                proof {
                    lemma_map_of_g_domain(ipv(old(self).entries@));
                    assert(self.entries@ == old(self).entries@);
                    assert(ipv(self.entries@) =~= ipv(old(self).entries@));
                    assert forall|a: int, b: int|
                        0 <= a < b < ipv(self.entries@).len() implies ipv(self.entries@)[a].0
                            != ipv(self.entries@)[b].0 by {
                        assert(ipv(old(self).entries@)[a].0 != ipv(old(self).entries@)[b].0);
                    }
                    assert(self.wf());
                    assert(ipv(old(self).entries@)[i as int].0 == key@);
                    assert(exists|j: int|
                        0 <= j < ipv(old(self).entries@).len() && ipv(old(self).entries@)[j].0
                            == key@);
                    assert(old(self).view().contains_key(key@));
                }
                return ;
            }
            i += 1;
        }
        let ghost ps = ipv(self.entries@);
        proof {
            assert forall|j: int| 0 <= j < ps.len() implies ps[j].0 != key@ by {
                assert(self.entries@[j].0@ != key@);
            }
        }
        self.entries.push((key, value));
        proof {
            assert(ipv(self.entries@).drop_last() =~= ps);
            assert(unique_keys_g(ipv(self.entries@))) by {
                assert forall|a: int, b: int|
                    0 <= a < b < ipv(self.entries@).len() implies ipv(self.entries@)[a].0 != ipv(
                    self.entries@,
                )[b].0 by {
                    if b == ps.len() {
                        assert(ipv(self.entries@)[a] == ps[a]);
                    } else {
                        assert(ipv(self.entries@)[a] == ps[a] && ipv(self.entries@)[b] == ps[b]);
                    }
                }
            }
        }
    }
}

/// The monster catalog: template identifier to display record, keys unique.
pub struct MonsterMap {
    pub entries: Vec<(String, MonsterData)>,
}

impl MonsterMap {
    pub open spec fn wf(&self) -> bool {
        unique_keys_g(mpv(self.entries@))
    }

    pub open spec fn view(&self) -> Map<Seq<char>, MonsterDataV> {
        map_of_g(mpv(self.entries@))
    }

    pub fn new() -> (r: MonsterMap)
        ensures
            r.wf(),
            r.view() == Map::<Seq<char>, MonsterDataV>::empty(),
    {
        let r = MonsterMap { entries: Vec::new() };
        proof {
            assert(mpv(r.entries@) =~= Seq::<(Seq<char>, MonsterDataV)>::empty());
        }
        r
    }

    /// Add one record; a key already present keeps its first record.
    pub fn insert(&mut self, key: String, value: MonsterData)
        requires
            old(self).wf(),
        ensures
            final (self).wf(),
            final (self).view() == if old(self).view().contains_key(key@) {
                old(self).view()
            } else {
                old(self).view().insert(key@, value.deep_view())
            },
    {
        proof {
            lemma_map_of_g_domain(mpv(self.entries@));
        }
        let n = self.entries.len();
        let mut i: usize = 0;
        while i < n
            invariant
                i <= n,
                n == self.entries@.len(),
                self == old(self),
                old(self).wf(),
                forall|j: int| 0 <= j < i ==> self.entries@[j].0@ != key@,
            decreases n - i,
        {
            if crate::state::str_eq(self.entries[i].0.as_str(), key.as_str()) {
                proof {
                    lemma_map_of_g_domain(mpv(old(self).entries@));
                    assert(self.entries@ == old(self).entries@);
                    assert(mpv(self.entries@) =~= mpv(old(self).entries@));
                    assert forall|a: int, b: int|
                        0 <= a < b < mpv(self.entries@).len() implies mpv(self.entries@)[a].0
                            != mpv(self.entries@)[b].0 by {
                        assert(mpv(old(self).entries@)[a].0 != mpv(old(self).entries@)[b].0);
                    }
                    assert(self.wf());
                    assert(mpv(old(self).entries@)[i as int].0 == key@);
                    assert(exists|j: int|
                        0 <= j < mpv(old(self).entries@).len() && mpv(old(self).entries@)[j].0
                            == key@);
                    assert(old(self).view().contains_key(key@));
                }
                return ;
            }
            i += 1;
        }
        let ghost ps = mpv(self.entries@);
        proof {
            assert forall|j: int| 0 <= j < ps.len() implies ps[j].0 != key@ by {
                assert(self.entries@[j].0@ != key@);
            }
        }
        self.entries.push((key, value));
        proof {
            assert(mpv(self.entries@).drop_last() =~= ps);
            assert(unique_keys_g(mpv(self.entries@))) by {
                assert forall|a: int, b: int|
                    0 <= a < b < mpv(self.entries@).len() implies mpv(self.entries@)[a].0 != mpv(
                    self.entries@,
                )[b].0 by {
                    if b == ps.len() {
                        assert(mpv(self.entries@)[a] == ps[a]);
                    } else {
                        assert(mpv(self.entries@)[a] == ps[a] && mpv(self.entries@)[b] == ps[b]);
                    }
                }
            }
        }
    }
}

/// The read-only static catalogs, loaded once before the tailer starts.
pub struct DbState {
    pub items: ItemMap,
    pub monsters: MonsterMap,
}

impl DbState {
    pub open spec fn wf(&self) -> bool {
        self.items.wf() && self.monsters.wf()
    }
}

/// The record for `tid`, with the template identifier re-attached as its
/// `id` field so the record is self-describing, or nothing when the
/// catalog does not know the template.
pub fn lookup_item(tid: &str, db: &ItemMap) -> (r: Option<ItemData>)
    requires
        db.wf(),
    ensures
        match r {
            Some(item) => db.view().contains_key(tid@) && item.deep_view() == (ItemDataV {
                id: Some(tid@),
                ..db.view()[tid@]
            }),
            None => !db.view().contains_key(tid@),
        },
{
    let n = db.entries.len();
    let mut i: usize = 0;
    while i < n
        invariant
            i <= n,
            n == db.entries@.len(),
            db.wf(),
            forall|j: int| 0 <= j < i ==> db.entries@[j].0@ != tid@,
        decreases n - i,
    {
        if crate::state::str_eq(db.entries[i].0.as_str(), tid) {
            proof {
                assert(ipv(db.entries@)[i as int].0 == tid@);
                lemma_map_of_g_at(ipv(db.entries@), i as int);
            }
            let mut item = db.entries[i].1.clone();
            item.id = Some(tid.to_owned());
            return Some(item);
        }
        i += 1;
    }
    proof {
        lemma_map_of_g_domain(ipv(db.entries@));
        assert forall|j: int| 0 <= j < ipv(db.entries@).len() implies ipv(db.entries@)[j].0
            != tid@ by {
            assert(db.entries@[j].0@ != tid@);
        }
    }
    None
}

/// A character folded to lower case; only the ASCII letters fold.
pub open spec fn spec_lower_char(c: char) -> char {
    if 'A' <= c && c <= 'Z' {
        (((c as u8) + 32) as char)
    } else {
        c
    }
}

/// A character sequence folded to lower case.
pub open spec fn spec_lower(s: Seq<char>) -> Seq<char> {
    Seq::new(s.len(), |i: int| spec_lower_char(s[i]))
}

/// The characters of `s`, folded to lower case.
pub fn lower_chars(s: &str) -> (r: Vec<char>)
    ensures
        r@ == spec_lower(s@),
{
    let n = s.unicode_len();
    let mut out: Vec<char> = Vec::new();
    let mut i: usize = 0;
    while i < n
        invariant
            i <= n,
            n == s@.len(),
            out@ =~= spec_lower(s@).take(i as int),
        decreases n - i,
    {
        let c = s.get_char(i);
        let lc: char = if 'A' <= c && c <= 'Z' {
            (((c as u8) + 32) as char)
        } else {
            c
        };
        out.push(lc);
        proof {
            assert(out@ =~= spec_lower(s@).take(i + 1));
        }
        i += 1;
    }
    proof {
        assert(spec_lower(s@).take(n as int) =~= spec_lower(s@));
    }
    out
}

/// A monster matches a lower-cased query when either of its names, folded
/// to lower case, holds the query as a substring.
pub open spec fn spec_monster_matches(m: MonsterDataV, ql: Seq<char>) -> bool {
    spec_contains(spec_lower(m.name_zh), ql) || spec_contains(spec_lower(m.name), ql)
}

/// The monsters whose names match the query, in catalog order.
pub open spec fn spec_search(entries: Seq<(Seq<char>, MonsterDataV)>, ql: Seq<char>) -> Seq<
    MonsterDataV,
>
    decreases entries.len(),
{
    if entries.len() == 0 {
        Seq::empty()
    } else {
        let rest = spec_search(entries.drop_last(), ql);
        if spec_monster_matches(entries.last().1, ql) {
            rest.push(entries.last().1)
        } else {
            rest
        }
    }
}

/// Case-insensitive substring search over both monster name fields.
pub fn search_monsters(query: &str, db: &MonsterMap) -> (r: Vec<MonsterData>)
    requires
        db.wf(),
    ensures
        r.deep_view() == spec_search(mpv(db.entries@), spec_lower(query@)),
{
    let ql = lower_chars(query);
    let n = db.entries.len();
    let mut out: Vec<MonsterData> = Vec::new();
    let mut i: usize = 0;
    while i < n
        invariant
            i <= n,
            n == db.entries@.len(),
            ql@ == spec_lower(query@),
            out.deep_view() == spec_search(mpv(db.entries@).take(i as int), spec_lower(query@)),
        decreases n - i,
    {
        let ghost pre = mpv(db.entries@).take(i as int);
        let ghost cur = mpv(db.entries@).take(i + 1);
        proof {
            assert(cur.drop_last() =~= pre);
            assert(cur.last() == mpv(db.entries@)[i as int]);
        }
        let m = &db.entries[i].1;
        let nz = lower_chars(m.name_zh.as_str());
        let nm = lower_chars(m.name.as_str());
        if contains_sub(&nz, &ql) || contains_sub(&nm, &ql) {
            let ghost s = out.deep_view();
            out.push(m.clone());
            proof {
                assert(out.deep_view() =~= s.push(mpv(db.entries@)[i as int].1));
            }
        }
        i += 1;
    }
    proof {
        assert(mpv(db.entries@).take(n as int) =~= mpv(db.entries@));
    }
    out
}

} // verus!

//! The ledger of observed versions: a map from version key to record.
use vstd::prelude::*;
use crate::version::{
    compare_versions, lemma_lex_equal, lemma_lex_swap, lemma_lex_trans, lex_cmp, version_numbers,
    version_order,
};
use std::cmp::Ordering;

verus! {

/// One observed version.
pub struct VersionRecord {
    pub client_version: String,
    pub build_date: String,
    pub build_version: Option<String>,
    pub web_player: Option<String>,
}

pub open spec fn opt_view(o: Option<String>) -> Option<Seq<char>> {
    match o {
        Some(s) => Some(s@),
        None => None,
    }
}

/// A record as plain character sequences.
pub struct RecordView {
    pub client_version: Seq<char>,
    pub build_date: Seq<char>,
    pub build_version: Option<Seq<char>>,
    pub web_player: Option<Seq<char>>,
}

impl View for VersionRecord {
    type V = RecordView;

    open spec fn view(&self) -> RecordView {
        RecordView {
            client_version: self.client_version@,
            build_date: self.build_date@,
            build_version: opt_view(self.build_version),
            web_player: opt_view(self.web_player),
        }
    }
}

fn clone_opt(o: &Option<String>) -> (r: Option<String>)
    ensures
        opt_view(r) == opt_view(*o),
{
    match o {
        Some(s) => Some(s.clone()),
        None => None,
    }
}

impl VersionRecord {
    /// A copy of the record.
    pub fn duplicate(&self) -> (r: VersionRecord)
        ensures
            r@ == self@,
    {
        VersionRecord {
            client_version: self.client_version.clone(),
            build_date: self.build_date.clone(),
            build_version: clone_opt(&self.build_version),
            web_player: clone_opt(&self.web_player),
        }
    }
}

pub type EntryView = (Seq<char>, RecordView);

/// The entries as plain values.
pub open spec fn entry_views(v: Seq<(String, VersionRecord)>) -> Seq<EntryView> {
    v.map_values(|e: (String, VersionRecord)| (e.0@, e.1@))
}

/// No key occurs twice.
pub open spec fn keys_unique(es: Seq<EntryView>) -> bool {
    forall|i: int, j: int| 0 <= i < es.len() && 0 <= j < es.len() && i != j ==> es[i].0 != es[j].0
}

/// The map that a list of entries stands for.
pub open spec fn map_of(es: Seq<EntryView>) -> Map<Seq<char>, RecordView>
    decreases es.len(),
{
    if es.len() == 0 {
        Map::empty()
    } else {
        map_of(es.drop_last()).insert(es.last().0, es.last().1)
    }
}

/// Each key of the map is that of an entry, and with unique keys each entry
/// gives its key's value.
pub proof fn lemma_map_of(es: Seq<EntryView>)
    ensures
        forall|k: Seq<char>|
            map_of(es).contains_key(k) <==> exists|i: int| 0 <= i < es.len() && #[trigger] es[i].0 == k,
        keys_unique(es) ==> forall|i: int|
            0 <= i < es.len() ==> #[trigger] map_of(es)[es[i].0] == es[i].1,
    decreases es.len(),
{
    if es.len() > 0 {
        let p = es.drop_last();
        lemma_map_of(p);
        assert forall|k: Seq<char>|
            map_of(es).contains_key(k) <==> exists|i: int| 0 <= i < es.len() && #[trigger] es[i].0 == k by {
            if map_of(p).contains_key(k) {
                let i = choose|i: int| 0 <= i < p.len() && #[trigger] p[i].0 == k;
                assert(es[i].0 == k);
            }
            if exists|i: int| 0 <= i < es.len() && #[trigger] es[i].0 == k {
                let i = choose|i: int| 0 <= i < es.len() && #[trigger] es[i].0 == k;
                if i < es.len() - 1 {
                    assert(p[i].0 == k);
                }
            }
        }
        if keys_unique(es) {
            assert(keys_unique(p)) by {
                assert forall|i: int, j: int|
                    0 <= i < p.len() && 0 <= j < p.len() && i != j implies p[i].0 != p[j].0 by {
                    assert(p[i] == es[i] && p[j] == es[j]);
                }
            }
            assert forall|i: int| 0 <= i < es.len() implies #[trigger] map_of(es)[es[i].0] == es[i].1 by {
                if i < es.len() - 1 {
                    assert(p[i] == es[i]);
                    assert(es[i].0 != es[es.len() - 1].0);
                    assert(map_of(p)[p[i].0] == p[i].1);
                }
            }
        }
    }
}

/// Two lists with unique keys and the same entries stand for the same map.
pub proof fn lemma_map_of_same_entries(a: Seq<EntryView>, b: Seq<EntryView>)
    requires
        keys_unique(a),
        keys_unique(b),
        forall|x: EntryView| a.contains(x) <==> b.contains(x),
    ensures
        map_of(a) == map_of(b),
{
    lemma_map_of(a);
    lemma_map_of(b);
    assert forall|k: Seq<char>| #[trigger] map_of(a).dom().contains(k) <==> map_of(b).dom().contains(k) by {
        if map_of(a).contains_key(k) {
            let i = choose|i: int| 0 <= i < a.len() && #[trigger] a[i].0 == k;
            assert(a.contains(a[i]));
            let j = choose|j: int| 0 <= j < b.len() && b[j] == a[i];
            assert(b[j].0 == k);
        }
        if map_of(b).contains_key(k) {
            let j = choose|j: int| 0 <= j < b.len() && #[trigger] b[j].0 == k;
            assert(b.contains(b[j]));
            let i = choose|i: int| 0 <= i < a.len() && a[i] == b[j];
            assert(a[i].0 == k);
        }
    }
    assert(map_of(a).dom() =~= map_of(b).dom());
    assert forall|k: Seq<char>| #[trigger] map_of(a).dom().contains(k) implies map_of(b)[k] == map_of(a)[k] by {
        let i = choose|i: int| 0 <= i < a.len() && #[trigger] a[i].0 == k;
        assert(a.contains(a[i]));
        let j = choose|j: int| 0 <= j < b.len() && b[j] == a[i];
        assert(b[j].0 == k);
        assert(map_of(b)[b[j].0] == b[j].1);
        assert(map_of(a)[a[i].0] == a[i].1);
    }
    assert(map_of(a) =~= map_of(b));
}

/// Two lists with unique keys that stand for the same map hold the same
/// entries: a ledger read back from its listing lists what it listed.
pub proof fn lemma_same_map_same_entries(a: Seq<EntryView>, b: Seq<EntryView>)
    requires
        keys_unique(a),
        keys_unique(b),
        map_of(a) == map_of(b),
    ensures
        forall|x: EntryView| a.contains(x) <==> b.contains(x),
{
    lemma_map_of(a);
    lemma_map_of(b);
    assert forall|x: EntryView| a.contains(x) implies b.contains(x) by {
        let i = choose|i: int| 0 <= i < a.len() && a[i] == x;
        assert(map_of(a)[a[i].0] == a[i].1);
        assert(map_of(a).contains_key(a[i].0));
        let j = choose|j: int| 0 <= j < b.len() && #[trigger] b[j].0 == x.0;
        assert(map_of(b)[b[j].0] == b[j].1);
        assert(b[j] == x);
    }
    assert forall|x: EntryView| b.contains(x) implies a.contains(x) by {
        let j = choose|j: int| 0 <= j < b.len() && b[j] == x;
        assert(map_of(b)[b[j].0] == b[j].1);
        assert(map_of(b).contains_key(b[j].0));
        let i = choose|i: int| 0 <= i < a.len() && #[trigger] a[i].0 == x.0;
        assert(map_of(a)[a[i].0] == a[i].1);
        assert(a[i] == x);
    }
}

/// Listed in the ledger's order: no entry comes before one that the
/// numeric order puts first.
pub open spec fn sorted_desc(es: Seq<EntryView>) -> bool {
    forall|i: int, j: int| 0 <= i < j < es.len() ==> version_order(es[i].0, es[j].0) != Ordering::Greater
}

/// Putting an entry where the scan for its place stopped keeps the order.
proof fn lemma_insert_sorted(ov: Seq<EntryView>, p: int, x: EntryView)
    requires
        sorted_desc(ov),
        0 <= p <= ov.len(),
        forall|t: int| 0 <= t < p ==> version_order(x.0, #[trigger] ov[t].0) != Ordering::Less,
        p < ov.len() ==> version_order(x.0, ov[p].0) == Ordering::Less,
    ensures
        sorted_desc(ov.insert(p, x)),
{
    let nv = ov.insert(p, x);
    assert forall|a: int, b: int| 0 <= a < b < nv.len() implies version_order(nv[a].0, nv[b].0)
        != Ordering::Greater by {
        let nx = version_numbers(x.0);
        if a < p && b == p {
            lemma_lex_swap(version_numbers(ov[a].0), nx);
        } else if a == p && b > p {
            let y = version_numbers(ov[b - 1].0);
            let z = version_numbers(ov[p].0);
            if b - 1 > p {
                assert(version_order(ov[p].0, ov[b - 1].0) != Ordering::Greater);
                lemma_lex_trans(y, z, nx);
            }
        } else if a < p && b < p {
            assert(nv[a] == ov[a] && nv[b] == ov[b]);
        } else if a < p {
            assert(nv[a] == ov[a] && nv[b] == ov[b - 1]);
        } else {
            assert(nv[a] == ov[a - 1] && nv[b] == ov[b - 1]);
        }
    }
}

/// The ledger of observed versions, each under its key.
pub struct Ledger {
    entries: Vec<(String, VersionRecord)>,
}

impl View for Ledger {
    type V = Map<Seq<char>, RecordView>;

    closed spec fn view(&self) -> Map<Seq<char>, RecordView> {
        map_of(entry_views(self.entries@))
    }
}

impl Ledger {
    /// Each key is held once.
    pub closed spec fn wf(&self) -> bool {
        keys_unique(entry_views(self.entries@))
    }

    /// An empty ledger.
    pub fn new() -> (r: Ledger)
        ensures
            r.wf(),
            r@ == Map::<Seq<char>, RecordView>::empty(),
    {
        let r = Ledger { entries: Vec::new() };
        assert(entry_views(r.entries@) =~= Seq::<EntryView>::empty());
        r
    }

    fn position(&self, key: &String) -> (r: Option<usize>)
        ensures
            match r {
                Some(i) => i < self.entries@.len() && self.entries@[i as int].0@ == key@,
                None => forall|i: int| 0 <= i < self.entries@.len() ==> self.entries@[i].0@ != key@,
            },
    {
        let mut i: usize = 0;
        while i < self.entries.len()
            invariant
                i <= self.entries@.len(),
                forall|j: int| 0 <= j < i ==> self.entries@[j].0@ != key@,
            decreases self.entries.len() - i,
        {
            if self.entries[i].0 == *key {
                return Some(i);
            }
            i += 1;
        }
        None
    }

    /// Whether a record is held under `key`.
    pub fn contains(&self, key: &String) -> (r: bool)
        ensures
            r == self@.contains_key(key@),
    {
        let ghost ev = entry_views(self.entries@);
        proof {
            lemma_map_of(ev);
        }
        match self.position(key) {
            Some(i) => {
                assert(ev[i as int].0 == key@);
                true
            },
            None => {
                assert(forall|i: int| 0 <= i < ev.len() ==> ev[i].0 == self.entries@[i].0@);
                false
            },
        }
    }

    /// The record held under `key`, if any.
    pub fn get(&self, key: &String) -> (r: Option<&VersionRecord>)
        requires
            self.wf(),
        ensures
            match r {
                Some(v) => self@.contains_key(key@) && self@[key@] == v@,
                None => !self@.contains_key(key@),
            },
    {
        let ghost ev = entry_views(self.entries@);
        proof {
            lemma_map_of(ev);
        }
        match self.position(key) {
            Some(i) => {
                assert(ev[i as int].0 == key@);
                Some(&self.entries[i].1)
            },
            None => {
                assert(forall|i: int| 0 <= i < ev.len() ==> ev[i].0 == self.entries@[i].0@);
                None
            },
        }
    }

    /// Adds `record` under `key`, which the ledger must not hold yet.
    pub fn insert(&mut self, key: String, record: VersionRecord)
        requires
            old(self).wf(),
            !old(self)@.contains_key(key@),
        ensures
            final(self).wf(),
            final(self)@ == old(self)@.insert(key@, record@),
    {
        let ghost ev0 = entry_views(self.entries@);
        proof {
            lemma_map_of(ev0);
        }
        self.entries.push((key, record));
        proof {
            let ev = entry_views(self.entries@);
            assert(ev.drop_last() =~= ev0);
            assert forall|i: int| 0 <= i < ev0.len() implies ev[i].0 != ev.last().0 by {
                assert(ev0[i].0 == ev[i].0);
                if ev0[i].0 == key@ {
                    assert(map_of(ev0).contains_key(ev0[i].0));
                }
            }
            assert forall|i: int, j: int|
                0 <= i < ev.len() && 0 <= j < ev.len() && i != j implies ev[i].0 != ev[j].0 by {
                if i < ev0.len() && j < ev0.len() {
                    assert(ev0[i] == ev[i] && ev0[j] == ev[j]);
                }
            }
            assert(keys_unique(ev));
        }
    }

    /// The entries in the ledger's order: by `compare_versions` of their
    /// keys, and in the order they were added where that order ties.
    pub fn sorted_entries(&self) -> (r: Vec<(String, VersionRecord)>)
        requires
            self.wf(),
        ensures
            keys_unique(entry_views(r@)),
            sorted_desc(entry_views(r@)),
            map_of(entry_views(r@)) == self@,
    {
        let ghost ev = entry_views(self.entries@);
        let mut out: Vec<(String, VersionRecord)> = Vec::new();
        let mut i: usize = 0;
        proof {
            assert(entry_views(out@) =~= Seq::<EntryView>::empty());
        }
        while i < self.entries.len()
            invariant
                i <= self.entries@.len(),
                ev == entry_views(self.entries@),
                keys_unique(ev),
                keys_unique(entry_views(out@)),
                sorted_desc(entry_views(out@)),
                forall|y: EntryView| entry_views(out@).contains(y) <==> ev.take(i as int).contains(y),
            decreases self.entries.len() - i,
        {
            let key = self.entries[i].0.clone();
            let rec = self.entries[i].1.duplicate();
            let ghost x: EntryView = (key@, rec@);
            let ghost ov = entry_views(out@);
            assert(x == ev[i as int]);
            let mut p: usize = 0;
            while p < out.len() && !precedes(&key, &out[p].0)
                invariant
                    p <= out@.len(),
                    ov == entry_views(out@),
                    x.0 == key@,
                    forall|t: int| 0 <= t < p ==> version_order(x.0, #[trigger] ov[t].0) != Ordering::Less,
                decreases out.len() - p,
            {
                p += 1;
            }
            let ghost i0 = i as int;
            assert(forall|y: EntryView| ov.contains(y) <==> ev.take(i0).contains(y));
            proof {
                lemma_insert_sorted(ov, p as int, x);
                assert forall|t: int| 0 <= t < ov.len() implies ov[t].0 != x.0 by {
                    assert(ov.contains(ov[t]));
                    let tp = ev.take(i as int);
                    let j = choose|j: int| 0 <= j < tp.len() && #[trigger] tp[j] == ov[t];
                    assert(ev[j] == ov[t]);
                }
            }
            out.insert(p, (key, rec));
            i += 1;
            proof {
                let nv = entry_views(out@);
                assert(nv =~= ov.insert(p as int, x));
                assert forall|a: int, b: int|
                    0 <= a < nv.len() && 0 <= b < nv.len() && a != b implies nv[a].0 != nv[b].0 by {
                    if a != p && b != p {
                        let a0 = if a < p { a } else { a - 1 };
                        let b0 = if b < p { b } else { b - 1 };
                        assert(nv[a] == ov[a0] && nv[b] == ov[b0]);
                    } else if a == p {
                        let b0 = if b < p { b } else { b - 1 };
                        assert(nv[b] == ov[b0]);
                    } else {
                        let a0 = if a < p { a } else { a - 1 };
                        assert(nv[a] == ov[a0]);
                    }
                }
                let tk = ev.take(i as int);
                assert(tk =~= ev.take(i - 1).push(x));
                assert forall|y: EntryView| nv.contains(y) <==> tk.contains(y) by {
                    if nv.contains(y) {
                        let a = choose|a: int| 0 <= a < nv.len() && nv[a] == y;
                        if a == p {
                            assert(tk[i - 1] == y);
                        } else {
                            let a0 = if a < p { a } else { a - 1 };
                            assert(ov[a0] == y);
                            assert(ov.contains(y));
                            let tp = ev.take(i - 1);
                            let j = choose|j: int| 0 <= j < tp.len() && #[trigger] tp[j] == y;
                            assert(tk[j] == y);
                        }
                    }
                    if tk.contains(y) {
                        let j = choose|j: int| 0 <= j < i && tk[j] == y;
                        if j == i - 1 {
                            assert(nv[p as int] == y);
                        } else {
                            assert(i0 == i - 1);
                            assert(ev.take(i0)[j] == y);
                            assert(ev.take(i0).contains(y));
                            assert(ov.contains(y));
                            let a0 = choose|a0: int| 0 <= a0 < ov.len() && ov[a0] == y;
                            let a = if a0 < p { a0 } else { a0 + 1 };
                            assert(nv[a] == y);
                        }
                    }
                }
            }
        }
        proof {
            assert(ev.take(ev.len() as int) =~= ev);
            lemma_map_of_same_entries(entry_views(out@), ev);
        }
        out
    }

    /// The ledger holding `entries`; `None` where a key occurs twice.
    pub fn from_entries(entries: Vec<(String, VersionRecord)>) -> (r: Option<Ledger>)
        ensures
            r is Some <==> keys_unique(entry_views(entries@)),
            r is Some ==> r->0.wf() && r->0@ == map_of(entry_views(entries@)),
    {
        let ghost ev = entry_views(entries@);
        let mut ledger = Ledger::new();
        let mut i: usize = 0;
        proof {
            assert(ev.take(0) =~= Seq::<EntryView>::empty());
        }
        while i < entries.len()
            invariant
                i <= entries@.len(),
                ev == entry_views(entries@),
                ledger.wf(),
                ledger@ == map_of(ev.take(i as int)),
                keys_unique(ev.take(i as int)),
            decreases entries.len() - i,
        {
            let key = entries[i].0.clone();
            let rec = entries[i].1.duplicate();
            let ghost tk = ev.take(i as int);
            proof {
                lemma_map_of(tk);
            }
            if ledger.contains(&key) {
                proof {
                    let j = choose|j: int| 0 <= j < tk.len() && #[trigger] tk[j].0 == key@;
                    assert(ev[j].0 == ev[i as int].0);
                }
                return None;
            }
            ledger.insert(key, rec);
            i += 1;
            proof {
                let tn = ev.take(i as int);
                assert(tn.drop_last() =~= tk);
                assert forall|a: int, b: int|
                    0 <= a < tn.len() && 0 <= b < tn.len() && a != b implies tn[a].0 != tn[b].0 by {
                    if a < tk.len() && b < tk.len() {
                        assert(tk[a] == tn[a] && tk[b] == tn[b]);
                    } else if a < tk.len() {
                        assert(tk[a] == tn[a]);
                        if tn[a].0 == tn[b].0 {
                            assert(map_of(tk).contains_key(tk[a].0));
                        }
                    } else {
                        assert(tk[b] == tn[b]);
                        if tn[a].0 == tn[b].0 {
                            assert(map_of(tk).contains_key(tk[b].0));
                        }
                    }
                }
            }
        }
        proof {
            assert(ev.take(ev.len() as int) =~= ev);
        }
        Some(ledger)
    }
}

/// Whether key `a` comes strictly before key `b` in the ledger's order.
fn precedes(a: &String, b: &String) -> (r: bool)
    ensures
        r == (version_order(a@, b@) == Ordering::Less),
{
    match compare_versions(a.as_str(), b.as_str()) {
        Ordering::Less => true,
        _ => false,
    }
}

proof fn lemma_lex_antisym(x: Seq<u32>, y: Seq<u32>)
    requires
        lex_cmp(x, y) != Ordering::Greater,
        lex_cmp(y, x) != Ordering::Greater,
    ensures
        x == y,
{
    lemma_lex_swap(x, y);
    lemma_lex_equal(x, y);
}

/// In a sorted list, the entries from the first up to one with the first's
/// numbers all have those numbers.
proof fn lemma_sorted_plateau(b: Seq<EntryView>, j: int, k: int)
    requires
        sorted_desc(b),
        0 <= k <= j < b.len(),
        version_numbers(b[j].0) == version_numbers(b[0].0),
    ensures
        version_numbers(b[k].0) == version_numbers(b[0].0),
{
    if 0 < k {
        assert(version_order(b[0].0, b[k].0) != Ordering::Greater);
        if k < j {
            assert(version_order(b[k].0, b[j].0) != Ordering::Greater);
        }
        lemma_lex_antisym(version_numbers(b[k].0), version_numbers(b[0].0));
    }
}

/// Two sorted lists with unique keys and the same entries have the same
/// length and, position by position, keys with the same numbers: the order
/// of a listing is determined by the ledger, up to keys whose numeric
/// components are equal.
pub proof fn lemma_sorted_listings_agree(a: Seq<EntryView>, b: Seq<EntryView>)
    requires
        keys_unique(a),
        keys_unique(b),
        sorted_desc(a),
        sorted_desc(b),
        forall|x: EntryView| a.contains(x) <==> b.contains(x),
    ensures
        a.len() == b.len(),
        forall|i: int|
            0 <= i < a.len() ==> version_numbers(#[trigger] a[i].0) == version_numbers(b[i].0),
    decreases a.len(),
{
    if a.len() == 0 {
        if b.len() > 0 {
            assert(b.contains(b[0]));
        }
        return;
    }
    assert(a.contains(a[0]));
    let j = choose|j: int| 0 <= j < b.len() && b[j] == a[0];
    assert(b.contains(b[0]));
    let i0 = choose|i: int| 0 <= i < a.len() && a[i] == b[0];
    // a[0] >= a[i0] == b[0] >= b[j] == a[0]
    if i0 > 0 {
        assert(version_order(a[0].0, a[i0].0) != Ordering::Greater);
    } else {
        lemma_lex_equal(version_numbers(a[0].0), version_numbers(a[0].0));
    }
    if j > 0 {
        assert(version_order(b[0].0, b[j].0) != Ordering::Greater);
    } else {
        lemma_lex_equal(version_numbers(b[0].0), version_numbers(b[0].0));
    }
    lemma_lex_antisym(version_numbers(a[0].0), version_numbers(b[0].0));
    let a1 = a.drop_first();
    let b1 = b.remove(j);
    assert forall|x: EntryView| a1.contains(x) <==> b1.contains(x) by {
        if a1.contains(x) {
            let t = choose|t: int| 0 <= t < a1.len() && a1[t] == x;
            assert(a[t + 1] == x);
            assert(a.contains(x));
            let u = choose|u: int| 0 <= u < b.len() && b[u] == x;
            assert(x.0 != a[0].0);
            assert(u != j);
            if u < j {
                assert(b1[u] == x);
            } else {
                assert(b1[u - 1] == x);
            }
        }
        if b1.contains(x) {
            let u = choose|u: int| 0 <= u < b1.len() && b1[u] == x;
            let u0 = if u < j { u } else { u + 1 };
            assert(b[u0] == x);
            assert(u0 != j);
            assert(x.0 != b[j].0);
            assert(b.contains(x));
            let t = choose|t: int| 0 <= t < a.len() && a[t] == x;
            assert(t != 0);
            assert(a1[t - 1] == x);
        }
    }
    assert(keys_unique(a1)) by {
        assert forall|p: int, q: int|
            0 <= p < a1.len() && 0 <= q < a1.len() && p != q implies a1[p].0 != a1[q].0 by {
            assert(a1[p] == a[p + 1] && a1[q] == a[q + 1]);
        }
    }
    assert(keys_unique(b1)) by {
        assert forall|p: int, q: int|
            0 <= p < b1.len() && 0 <= q < b1.len() && p != q implies b1[p].0 != b1[q].0 by {
            let p0 = if p < j { p } else { p + 1 };
            let q0 = if q < j { q } else { q + 1 };
            assert(b1[p] == b[p0] && b1[q] == b[q0]);
        }
    }
    assert(sorted_desc(a1)) by {
        assert forall|p: int, q: int| 0 <= p < q < a1.len() implies version_order(a1[p].0, a1[q].0)
            != Ordering::Greater by {
            assert(a1[p] == a[p + 1] && a1[q] == a[q + 1]);
        }
    }
    assert(sorted_desc(b1)) by {
        assert forall|p: int, q: int| 0 <= p < q < b1.len() implies version_order(b1[p].0, b1[q].0)
            != Ordering::Greater by {
            let p0 = if p < j { p } else { p + 1 };
            let q0 = if q < j { q } else { q + 1 };
            assert(b1[p] == b[p0] && b1[q] == b[q0]);
        }
    }
    lemma_sorted_listings_agree(a1, b1);
    assert forall|i: int| 0 <= i < a.len() implies version_numbers(#[trigger] a[i].0)
        == version_numbers(b[i].0) by {
        if i > 0 {
            assert(a[i] == a1[i - 1]);
            assert(version_numbers(a1[i - 1].0) == version_numbers(b1[i - 1].0));
            if i - 1 < j {
                assert(b1[i - 1] == b[i - 1]);
                lemma_sorted_plateau(b, j, i - 1);
                lemma_sorted_plateau(b, j, i);
            } else {
                assert(b1[i - 1] == b[i]);
            }
        }
    }
}

/// Listings of a ledger and of one that holds the same map (as a ledger
/// read back from its file does, where the parse gives back the saved map;
/// that step rests on the JSON parser and is not stated here) hold the same
/// entries, keys with identical records, and list them in the same numeric
/// order, position by position.
pub proof fn lemma_reload_round_trip(saved: Seq<EntryView>, reloaded: Seq<EntryView>)
    requires
        keys_unique(saved),
        sorted_desc(saved),
        keys_unique(reloaded),
        sorted_desc(reloaded),
        map_of(reloaded) == map_of(saved),
    ensures
        forall|x: EntryView| saved.contains(x) <==> reloaded.contains(x),
        saved.len() == reloaded.len(),
        forall|i: int|
            0 <= i < saved.len() ==> version_numbers(#[trigger] saved[i].0) == version_numbers(
                reloaded[i].0,
            ),
{
    lemma_same_map_same_entries(saved, reloaded);
    lemma_sorted_listings_agree(saved, reloaded);
}

} // verus!

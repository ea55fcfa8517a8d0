use vstd::prelude::*;
use crate::config::IpAddress;
use crate::config::IpPrefix;

verus! {

// ---------------------------------------------------------------------------
// Model: a routing table of either address family is a map from prefix keys
// to view names.  A prefix key is the pair (length, leading bits): the value
// of the top `len` bits of the prefix, shifted down to the low end of the
// word.  An address matches a key when its own top `len` bits take the same
// value.  Keying on the shifted leading bits makes the key canonical: two
// prefixes that agree on their first `len` bits are the same key, however
// their host bits were written in the configuration.
// ---------------------------------------------------------------------------

/// The value of the top `len` bits of `addr`, shifted down, in an address
/// family `width` bits wide.
pub open spec fn addr_key(width: u32, len: u32, addr: u128) -> u128 {
    if len == 0 {
        0
    } else {
        addr >> ((width - len) as u128)
    }
}

/// Does the prefix key `k` (length, leading bits) contain the address `addr`?
pub open spec fn matches_key(width: u32, k: (u32, u128), addr: u128) -> bool {
    k.0 <= width && k.1 == addr_key(width, k.0, addr)
}

/// `k` is a longest key of `m` that contains `addr`.
pub open spec fn is_best_key(
    width: u32,
    m: Map<(u32, u128), Seq<char>>,
    addr: u128,
    k: (u32, u128),
) -> bool {
    &&& m.dom().contains(k)
    &&& matches_key(width, k, addr)
    &&& forall|k2: (u32, u128)|
        m.dom().contains(k2) && matches_key(width, k2, addr) ==> k2.0 <= k.0
}

/// Everything a longest-prefix lookup may return: the name under a longest
/// matching key, or nothing exactly when no key of the table contains the
/// address.
pub open spec fn lookup_post(
    width: u32,
    m: Map<(u32, u128), Seq<char>>,
    addr: u128,
    r: Option<Seq<char>>,
) -> bool {
    match r {
        Some(name) => exists|k: (u32, u128)| is_best_key(width, m, addr, k) && m[k] == name,
        None => forall|k: (u32, u128)| m.dom().contains(k) ==> !matches_key(width, k, addr),
    }
}

/// The view of an optional owned name.
pub open spec fn view_opt(r: Option<String>) -> Option<Seq<char>> {
    match r {
        Some(s) => Some(s@),
        None => None,
    }
}

/// The key a configured v4 prefix inserts.
pub open spec fn v4_key(bits: u32, len: u32) -> (u32, u128) {
    (len, addr_key(32, len, bits as u128))
}

/// The key a configured v6 prefix inserts.
pub open spec fn v6_key(bits: u128, len: u32) -> (u32, u128) {
    (len, addr_key(128, len, bits))
}

/// The key a configured prefix inserts into the table of family `width`
/// (32 or 128), if it belongs to that family.
pub open spec fn key_of(width: u32, p: IpPrefix) -> Option<(u32, u128)> {
    match p {
        IpPrefix::V4 { bits, len } => if width == 32 {
            Some(v4_key(bits, len))
        } else {
            None
        },
        IpPrefix::V6 { bits, len } => if width == 128 {
            Some(v6_key(bits, len))
        } else {
            None
        },
    }
}

/// The table of family `width` after one view's prefixes are inserted, in
/// declaration order, over `m0`.
pub open spec fn sources_map(
    width: u32,
    name: Seq<char>,
    src: Seq<IpPrefix>,
    m0: Map<(u32, u128), Seq<char>>,
) -> Map<(u32, u128), Seq<char>>
    decreases src.len(),
{
    if src.len() == 0 {
        m0
    } else {
        let m1 = sources_map(width, name, src.drop_last(), m0);
        match key_of(width, src.last()) {
            Some(k) => m1.insert(k, name),
            None => m1,
        }
    }
}

/// The table of family `width` after every view's prefixes are inserted, in
/// configuration order, over `m0`.  Later insertions of an already-present
/// key overwrite it: the last declaration of a prefix wins.
pub open spec fn views_map(
    width: u32,
    views: Seq<crate::config::View>,
    m0: Map<(u32, u128), Seq<char>>,
) -> Map<(u32, u128), Seq<char>>
    decreases views.len(),
{
    if views.len() == 0 {
        m0
    } else {
        sources_map(
            width,
            views.last().name@,
            views.last().source@,
            views_map(width, views.drop_last(), m0),
        )
    }
}

// ---------------------------------------------------------------------------
// Implementation
// ---------------------------------------------------------------------------

/// One routed prefix of a table: the prefix length, the canonical key bits,
/// and the name of the view it routes to.
struct Entry {
    len: u32,
    key: u128,
    name: String,
}

/// The map key of an entry.
spec fn entry_key(e: Entry) -> (u32, u128) {
    (e.len, e.key)
}

/// The routing map a run of entries denotes: entries are read in order and a
/// later entry with the same key overwrites an earlier one.
spec fn entries_map(s: Seq<Entry>) -> Map<(u32, u128), Seq<char>>
    decreases s.len(),
{
    if s.len() == 0 {
        Map::empty()
    } else {
        entries_map(s.drop_last()).insert(entry_key(s.last()), s.last().name@)
    }
}

/// Every entry's length fits the family width.
spec fn entries_wf(s: Seq<Entry>, width: u32) -> bool {
    forall|i: int| 0 <= i < s.len() ==> #[trigger] s[i].len <= width
}

/// The longest-prefix-match view router: one table per address family,
/// built once from the configured views and read-only afterwards.
pub struct PrefixMatcher {
    prefixes4: Vec<Entry>,
    prefixes6: Vec<Entry>,
}

impl PrefixMatcher {
    /// The v4 routing table this matcher denotes.
    pub closed spec fn map4(&self) -> Map<(u32, u128), Seq<char>> {
        entries_map(self.prefixes4@)
    }

    /// The v6 routing table this matcher denotes.
    pub closed spec fn map6(&self) -> Map<(u32, u128), Seq<char>> {
        entries_map(self.prefixes6@)
    }

    pub closed spec fn wf(&self) -> bool {
        entries_wf(self.prefixes4@, 32) && entries_wf(self.prefixes6@, 128)
    }

    /// Build the router from the configured views.
    pub fn try_new(views: Vec<crate::config::View>) -> (r: PrefixMatcher)
        requires
            forall|i: int| 0 <= i < views@.len() ==> (#[trigger] views@[i]).wf(),
        ensures
            r.wf(),
            r.map4() == views_map(32, views@, Map::empty()),
            r.map6() == views_map(128, views@, Map::empty()),
    {
        let mut matcher = PrefixMatcher { prefixes4: Vec::new(), prefixes6: Vec::new() };
        matcher.create_mapping(views);
        matcher
    }

    /// Insert every (prefix, view name) pair, in configuration order.
    fn create_mapping(&mut self, views: Vec<crate::config::View>)
        requires
            old(self).wf(),
            forall|i: int| 0 <= i < views@.len() ==> (#[trigger] views@[i]).wf(),
        ensures
            final(self).wf(),
            final(self).map4() == views_map(32, views@, old(self).map4()),
            final(self).map6() == views_map(128, views@, old(self).map6()),
    {
        let ghost m4_0 = self.map4();
        let ghost m6_0 = self.map6();
        let mut vi: usize = 0;
        while vi < views.len()
            invariant
                vi <= views@.len(),
                self.wf(),
                forall|i: int| 0 <= i < views@.len() ==> (#[trigger] views@[i]).wf(),
                self.map4() == views_map(32, views@.take(vi as int), m4_0),
                self.map6() == views_map(128, views@.take(vi as int), m6_0),
            decreases views@.len() - vi,
        {
            let ghost m4_v = self.map4();
            let ghost m6_v = self.map6();
            let view = &views[vi];
            let mut si: usize = 0;
            while si < view.source.len()
                invariant
                    vi < views@.len(),
                    si <= view.source@.len(),
                    view == views@[vi as int],
                    self.wf(),
                    views@[vi as int].wf(),
                    self.map4() == sources_map(32, view.name@, view.source@.take(si as int), m4_v),
                    self.map6() == sources_map(128, view.name@, view.source@.take(si as int), m6_v),
                decreases view.source@.len() - si,
            {
                let source = view.source[si];
                proof {
                    assert(views@[vi as int].source@[si as int].wf());
                    assert(source.wf());
                }
                match source {
                    IpPrefix::V4 { bits, len } => {
                        let key = addr_key_exec(32, len, bits as u128);
                        let e = Entry { len, key, name: clone_string(&view.name) };
                        proof {
                            lemma_entries_map_push(self.prefixes4@, e);
                        }
                        self.prefixes4.push(e);
                        proof {
                            assert forall|i: int| 0 <= i < self.prefixes4@.len() implies #[trigger]
                                self.prefixes4@[i].len <= 32 by {}
                        }
                    },
                    IpPrefix::V6 { bits, len } => {
                        let key = addr_key_exec(128, len, bits);
                        let e = Entry { len, key, name: clone_string(&view.name) };
                        proof {
                            lemma_entries_map_push(self.prefixes6@, e);
                        }
                        self.prefixes6.push(e);
                        proof {
                            assert forall|i: int| 0 <= i < self.prefixes6@.len() implies #[trigger]
                                self.prefixes6@[i].len <= 128 by {}
                        }
                    },
                }
                si = si + 1;
                proof {
                    assert(view.source@.take(si as int).drop_last() =~= view.source@.take(
                        si as int - 1,
                    ));
                    assert(view.source@.take(si as int).last() == source);
                }
            }
            vi = vi + 1;
            proof {
                assert(view.source@.take(view.source@.len() as int) =~= view.source@);
                assert(views@.take(vi as int).drop_last() =~= views@.take(vi as int - 1));
            }
        }
        proof {
            assert(views@.take(views@.len() as int) =~= views@);
        }
    }

    /// Resolve a source address to the view of the most specific configured
    /// prefix that contains it, or to nothing when no prefix does.
    pub fn lookup(&self, address: IpAddress) -> (r: Option<String>)
        requires
            self.wf(),
        ensures
            match address {
                IpAddress::V4(a) => lookup_post(32, self.map4(), a as u128, view_opt(r)),
                IpAddress::V6(a) => lookup_post(128, self.map6(), a, view_opt(r)),
            },
    {
        match address {
            IpAddress::V4(a) => table_lookup(32, &self.prefixes4, a as u128),
            IpAddress::V6(a) => table_lookup(128, &self.prefixes6, a),
        }
    }
}

/// The top `len` bits of `addr`, shifted down.
fn addr_key_exec(width: u32, len: u32, addr: u128) -> (r: u128)
    requires
        len <= width,
        width <= 128,
    ensures
        r == addr_key(width, len, addr),
{
    if len == 0 {
        0
    } else {
        addr >> ((width - len) as u128)
    }
}

/// An owned copy of a view name.
fn clone_string(s: &String) -> (r: String)
    ensures
        r@ == s@,
{
    s.as_str().to_owned()
}

/// Scan a table for the most specific entry containing `addr`; among entries
/// of one key, the latest inserted one decides.
fn table_lookup(width: u32, entries: &Vec<Entry>, addr: u128) -> (r: Option<String>)
    requires
        entries_wf(entries@, width),
        32 <= width <= 128,
    ensures
        lookup_post(width, entries_map(entries@), addr, view_opt(r)),
{
    let ghost s = entries@;
    let mut found: bool = false;
    let mut best_i: usize = 0;
    let mut i: usize = 0;
    while i < entries.len()
        invariant
            i <= s.len(),
            entries@ == s,
            entries_wf(s, width),
            32 <= width <= 128,
            !found ==> forall|j: int| 0 <= j < i ==> !matches_key(width, entry_key(s[j]), addr),
            found ==> {
                &&& best_i < i
                &&& matches_key(width, entry_key(s[best_i as int]), addr)
                &&& forall|j: int|
                    0 <= j < i && matches_key(width, entry_key(s[j]), addr)
                        ==> s[j].len <= s[best_i as int].len
                &&& forall|j: int|
                    best_i < j < i ==> entry_key(s[j]) != entry_key(s[best_i as int])
            },
        decreases s.len() - i,
    {
        let e = &entries[i];
        let matched = if e.len == 0 {
            e.key == 0
        } else {
            (addr >> ((width - e.len) as u128)) == e.key
        };
        assert(matched == matches_key(width, entry_key(s[i as int]), addr));
        if matched && (!found || e.len >= entries[best_i].len) {
            proof {
                if found && e.len == s[best_i as int].len {
                    // equal lengths and both match the address: same canonical key
                    assert(entry_key(s[i as int]).1 == addr_key(width, e.len, addr));
                }
            }
            found = true;
            best_i = i;
        }
        i = i + 1;
    }
    if found {
        proof {
            let m = entries_map(s);
            let kb = entry_key(s[best_i as int]);
            lemma_entries_map_last_wins(s, best_i as int);
            assert forall|k2: (u32, u128)|
                m.dom().contains(k2) && matches_key(width, k2, addr) implies k2.0 <= kb.0 by {
                lemma_entries_map_dom_to_entry(s, k2);
                let j = choose|j: int| 0 <= j < s.len() && entry_key(#[trigger] s[j]) == k2;
                assert(s[j].len <= s[best_i as int].len);
            }
            assert(is_best_key(width, m, addr, kb));
        }
        Some(clone_string(&entries[best_i].name))
    } else {
        proof {
            let m = entries_map(s);
            assert forall|k: (u32, u128)| m.dom().contains(k) implies !matches_key(
                width,
                k,
                addr,
            ) by {
                lemma_entries_map_dom_to_entry(s, k);
                let j = choose|j: int| 0 <= j < s.len() && entry_key(#[trigger] s[j]) == k;
                assert(!matches_key(width, entry_key(s[j]), addr));
            }
        }
        None
    }
}

/// Appending an entry inserts its key into the denoted map.
proof fn lemma_entries_map_push(s: Seq<Entry>, e: Entry)
    ensures
        entries_map(s.push(e)) == entries_map(s).insert(entry_key(e), e.name@),
{
    assert(s.push(e).drop_last() =~= s);
}

/// The last entry carrying a given key decides that key's name in the
/// denoted map.
proof fn lemma_entries_map_last_wins(s: Seq<Entry>, j: int)
    requires
        0 <= j < s.len(),
        forall|j2: int| j < j2 < s.len() ==> entry_key(s[j2]) != entry_key(s[j]),
    ensures
        entries_map(s).dom().contains(entry_key(s[j])),
        entries_map(s)[entry_key(s[j])] == s[j].name@,
    decreases s.len(),
{
    if j == s.len() - 1 {
    } else {
        lemma_entries_map_last_wins(s.drop_last(), j);
    }
}

/// A key in the denoted map is carried by some entry.
proof fn lemma_entries_map_dom_to_entry(s: Seq<Entry>, k: (u32, u128))
    requires
        entries_map(s).dom().contains(k),
    ensures
        exists|j: int| 0 <= j < s.len() && entry_key(#[trigger] s[j]) == k,
    decreases s.len(),
{
    if s.len() == 0 {
    } else if k == entry_key(s.last()) {
        assert(entry_key(s[s.len() - 1]) == k);
    } else {
        lemma_entries_map_dom_to_entry(s.drop_last(), k);
        let j = choose|j: int|
            0 <= j < s.drop_last().len() && entry_key(#[trigger] s.drop_last()[j]) == k;
        assert(s.drop_last()[j] == s[j]);
        assert(entry_key(s[j]) == k);
    }
}

/// Law: at most one key of a table is a longest match for an address.  Two
/// longest matching keys have equal lengths, and keys of equal length that
/// both contain an address carry the same leading bits.
pub proof fn lemma_best_key_unique(
    width: u32,
    m: Map<(u32, u128), Seq<char>>,
    addr: u128,
    k1: (u32, u128),
    k2: (u32, u128),
)
    requires
        is_best_key(width, m, addr, k1),
        is_best_key(width, m, addr, k2),
    ensures
        k1 == k2,
{
    assert(k1.0 == k2.0);
    assert(k1.1 == addr_key(width, k1.0, addr));
    assert(k2.1 == addr_key(width, k2.0, addr));
    assert(k1 == (k1.0, k1.1));
    assert(k2 == (k2.0, k2.1));
}

/// Law: when prefixes of differing lengths cover an address, a lookup answer
/// is the view of the longest covering prefix, whatever order the prefixes
/// were configured in.
pub proof fn lemma_lookup_longest(
    width: u32,
    m: Map<(u32, u128), Seq<char>>,
    addr: u128,
    k: (u32, u128),
    r: Option<Seq<char>>,
)
    requires
        is_best_key(width, m, addr, k),
        lookup_post(width, m, addr, r),
    ensures
        r == Some(m[k]),
{
    match r {
        Some(name) => {
            let kw = choose|kw: (u32, u128)| is_best_key(width, m, addr, kw) && m[kw] == name;
            lemma_best_key_unique(width, m, addr, kw, k);
        },
        None => {
            assert(m.dom().contains(k) && matches_key(width, k, addr));
        },
    }
}

/// A later declaration than position (`vi`, `si`) of the configuration.
pub open spec fn later_decl(views: Seq<crate::config::View>, vi: int, si: int, vj: int, sj: int) -> bool {
    &&& 0 <= vj < views.len()
    &&& 0 <= sj < views[vj].source@.len()
    &&& (vj > vi || (vj == vi && sj > si))
}

/// Folding one view's prefixes leaves every key they do not carry unchanged.
proof fn lemma_sources_map_preserves(
    width: u32,
    name: Seq<char>,
    src: Seq<IpPrefix>,
    m0: Map<(u32, u128), Seq<char>>,
    k: (u32, u128),
)
    requires
        forall|sj: int| 0 <= sj < src.len() ==> key_of(width, #[trigger] src[sj]) != Some(k),
    ensures
        sources_map(width, name, src, m0).dom().contains(k) == m0.dom().contains(k),
        m0.dom().contains(k) ==> sources_map(width, name, src, m0)[k] == m0[k],
    decreases src.len(),
{
    if src.len() == 0 {
    } else {
        assert(forall|sj: int|
            0 <= sj < src.drop_last().len() ==> #[trigger] src.drop_last()[sj] == src[sj]);
        lemma_sources_map_preserves(width, name, src.drop_last(), m0, k);
        assert(key_of(width, src[src.len() - 1]) != Some(k));
    }
}

/// Within one view, a declared prefix not redeclared later in that view keeps
/// its binding in the folded map.
proof fn lemma_sources_map_assigned(
    width: u32,
    name: Seq<char>,
    src: Seq<IpPrefix>,
    m0: Map<(u32, u128), Seq<char>>,
    si: int,
    k: (u32, u128),
)
    requires
        0 <= si < src.len(),
        key_of(width, src[si]) == Some(k),
        forall|sj: int| si < sj < src.len() ==> key_of(width, #[trigger] src[sj]) != Some(k),
    ensures
        sources_map(width, name, src, m0).dom().contains(k),
        sources_map(width, name, src, m0)[k] == name,
    decreases src.len(),
{
    if si == src.len() - 1 {
    } else {
        assert(forall|sj: int|
            0 <= sj < src.drop_last().len() ==> #[trigger] src.drop_last()[sj] == src[sj]);
        lemma_sources_map_assigned(width, name, src.drop_last(), m0, si, k);
        assert(key_of(width, src[src.len() - 1]) != Some(k));
    }
}

/// Law: a configured prefix stands in the built table, routed to the view
/// that declared it, unless a later declaration of the same prefix (in this
/// or another view) overrode it.
pub proof fn lemma_configured_prefix_routes(
    width: u32,
    views: Seq<crate::config::View>,
    m0: Map<(u32, u128), Seq<char>>,
    vi: int,
    si: int,
    k: (u32, u128),
)
    requires
        0 <= vi < views.len(),
        0 <= si < views[vi].source@.len(),
        key_of(width, views[vi].source@[si]) == Some(k),
        forall|vj: int, sj: int|
            later_decl(views, vi, si, vj, sj) ==> key_of(
                width,
                #[trigger] views[vj].source@[sj],
            ) != Some(k),
    ensures
        views_map(width, views, m0).dom().contains(k),
        views_map(width, views, m0)[k] == views[vi].name@,
    decreases views.len(),
{
    let last = views[views.len() - 1];
    if vi == views.len() - 1 {
        assert forall|sj: int| si < sj < last.source@.len() implies key_of(
            width,
            #[trigger] last.source@[sj],
        ) != Some(k) by {
            assert(later_decl(views, vi, si, vi, sj));
        }
        lemma_sources_map_assigned(
            width,
            last.name@,
            last.source@,
            views_map(width, views.drop_last(), m0),
            si,
            k,
        );
    } else {
        assert(forall|vj: int|
            0 <= vj < views.drop_last().len() ==> #[trigger] views.drop_last()[vj] == views[vj]);
        assert forall|vj: int, sj: int|
            later_decl(views.drop_last(), vi, si, vj, sj) implies key_of(
            width,
            #[trigger] views.drop_last()[vj].source@[sj],
        ) != Some(k) by {
            assert(views.drop_last()[vj] == views[vj]);
            assert(later_decl(views, vi, si, vj, sj));
        }
        lemma_configured_prefix_routes(width, views.drop_last(), m0, vi, si, k);
        assert forall|sj: int| 0 <= sj < last.source@.len() implies key_of(
            width,
            #[trigger] last.source@[sj],
        ) != Some(k) by {
            assert(later_decl(views, vi, si, views.len() - 1, sj));
        }
        lemma_sources_map_preserves(
            width,
            last.name@,
            last.source@,
            views_map(width, views.drop_last(), m0),
            k,
        );
    }
}

/// Law: an address contained in a configured prefix, and in no longer
/// configured prefix, resolves to the view that declared that prefix (the
/// declaration itself not being overridden by a later one of the same
/// prefix).  `r` ranges over everything `lookup` is allowed to return.
pub proof fn lemma_lookup_assigned_view(
    width: u32,
    views: Seq<crate::config::View>,
    vi: int,
    si: int,
    k: (u32, u128),
    addr: u128,
    r: Option<Seq<char>>,
)
    requires
        0 <= vi < views.len(),
        0 <= si < views[vi].source@.len(),
        key_of(width, views[vi].source@[si]) == Some(k),
        forall|vj: int, sj: int|
            later_decl(views, vi, si, vj, sj) ==> key_of(
                width,
                #[trigger] views[vj].source@[sj],
            ) != Some(k),
        matches_key(width, k, addr),
        forall|k2: (u32, u128)|
            views_map(width, views, Map::empty()).dom().contains(k2) && matches_key(
                width,
                k2,
                addr,
            ) ==> k2.0 <= k.0,
        lookup_post(width, views_map(width, views, Map::empty()), addr, r),
    ensures
        r == Some(views[vi].name@),
{
    let m = views_map(width, views, Map::empty());
    lemma_configured_prefix_routes(width, views, Map::empty(), vi, si, k);
    assert(is_best_key(width, m, addr, k));
    lemma_lookup_longest(width, m, addr, k, r);
}

/// Every entry's key is in the denoted map.
proof fn lemma_entries_map_entry_in_dom(s: Seq<Entry>, j: int)
    requires
        0 <= j < s.len(),
    ensures
        entries_map(s).dom().contains(entry_key(s[j])),
    decreases s.len(),
{
    if j == s.len() - 1 {
    } else {
        lemma_entries_map_entry_in_dom(s.drop_last(), j);
        assert(s.drop_last()[j] == s[j]);
    }
}

} // verus!

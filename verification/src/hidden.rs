//! Apps the user has hidden from the result list.
//!
//! Keyed by the shell's parsing name, not the display name: parsing names
//! are unique and stable, while two apps can share a display name and a
//! rename would silently un-hide one. The display name rides along so the
//! unhide menu can still name an app whose entry has since left the index.
//!
//! On disk the list is one `key<TAB>name` line per app.

use vstd::prelude::*;

use crate::config::string_views;
use crate::keyed::{
    distinct_keys, lemma_map_of, lemma_map_of_push, lemma_map_of_remove, lemma_map_of_update,
    map_of,
};
use crate::text::{
    is_permutation, lex_le, lowercase, sort_indices_lex, sorted_by_lex, spec_lowercase, chars_of, clone_strings, eq_chars, lemma_find, lemma_find_at, lemma_lines_cons, lines, lines_of,
    split_once, split_once_chars, string_of, strip_cr, views,
};

verus! {

/// Hidden apps: parsing key -> display name as it read when hidden.
pub struct HiddenApps {
    keys: Vec<String>,
    names: Vec<String>,
}

impl HiddenApps {
    #[verifier::type_invariant]
    closed spec fn inv(self) -> bool {
        &&& self.keys@.len() == self.names@.len()
        &&& distinct_keys(string_views(self.keys@))
    }

    /// The keys, in the order the list keeps them.
    pub closed spec fn key_seq(&self) -> Seq<Seq<char>> {
        string_views(self.keys@)
    }

    /// The display names, parallel to `key_seq`.
    pub closed spec fn name_seq(&self) -> Seq<Seq<char>> {
        string_views(self.names@)
    }

    /// An empty list.
    pub fn new() -> (r: HiddenApps)
        ensures
            r@ == Map::<Seq<char>, Seq<char>>::empty(),
    {
        let r = HiddenApps { keys: Vec::new(), names: Vec::new() };
        assert(string_views(r.keys@) =~= Seq::<Seq<char>>::empty());
        r
    }

    /// The number of hidden apps.
    pub fn len(&self) -> (n: usize)
        ensures
            n == self@.len(),
    {
        proof {
            use_type_invariant(self);
            lemma_map_of(self.key_seq(), self.name_seq());
        }
        self.keys.len()
    }

    /// Position of `key` in the list.
    fn index_of(&self, key: &[char]) -> (r: Option<usize>)
        ensures
            match r {
                Some(i) => i < self.key_seq().len() && self.key_seq()[i as int] == key@,
                None => !self.key_seq().contains(key@),
            },
    {
        let mut i: usize = 0;
        while i < self.keys.len()
            invariant
                i <= self.keys@.len(),
                forall|j: int| 0 <= j < i ==> self.key_seq()[j] != key@,
            decreases self.keys.len() - i,
        {
            let k = chars_of(self.keys[i].as_str());
            if eq_chars(k.as_slice(), key) {
                return Some(i);
            }
            i = i + 1;
        }
        None
    }

    /// Whether `key` is hidden.
    pub fn contains(&self, key: &str) -> (r: bool)
        ensures
            r == self@.dom().contains(key@),
    {
        proof {
            use_type_invariant(self);
            lemma_map_of(self.key_seq(), self.name_seq());
        }
        let k = chars_of(key);
        self.index_of(k.as_slice()).is_some()
    }

    /// The stored (key, name) pairs, in the list's order.
    pub fn entries(&self) -> (r: Vec<(String, String)>)
        ensures
            r@.len() == self.key_seq().len(),
            forall|i: int|
                0 <= i < r@.len() ==> (#[trigger] r@[i]).0@ == self.key_seq()[i] && r@[i].1@
                    == self.name_seq()[i],
    {
        proof {
            use_type_invariant(self);
        }
        let mut out: Vec<(String, String)> = Vec::new();
        let mut i: usize = 0;
        while i < self.keys.len()
            invariant
                self.keys@.len() == self.names@.len(),
                i <= self.keys@.len(),
                out@.len() == i,
                forall|j: int|
                    0 <= j < i ==> (#[trigger] out@[j]).0@ == self.key_seq()[j] && out@[j].1@
                        == self.name_seq()[j],
            decreases self.keys.len() - i,
        {
            out.push((self.keys[i].clone(), self.names[i].clone()));
            i = i + 1;
        }
        out
    }
}

impl View for HiddenApps {
    type V = Map<Seq<char>, Seq<char>>;

    open spec fn view(&self) -> Map<Seq<char>, Seq<char>> {
        map_of(self.key_seq(), self.name_seq())
    }
}

/// Hides `key` under the display name `name`, replacing an earlier name.
pub fn hide_app(map: &mut HiddenApps, key: &str, name: &str)
    ensures
        final(map)@ == old(map)@.insert(key@, name@),
{
    proof {
        use_type_invariant(&*map);
    }
    let k = chars_of(key);
    let ghost ks = map.key_seq();
    let ghost ns = map.name_seq();
    let mut keys = clone_strings(&map.keys);
    let mut names = clone_strings(&map.names);
    match map.index_of(k.as_slice()) {
        Some(i) => {
            names.set(i, String::from_str(name));
            proof {
                assert(string_views(names@) =~= ns.update(i as int, name@));
                lemma_map_of_update(ks, ns, i as int, name@);
            }
        },
        None => {
            keys.push(String::from_str(key));
            names.push(String::from_str(name));
            proof {
                assert(string_views(keys@) =~= ks.push(key@));
                assert(string_views(names@) =~= ns.push(name@));
                lemma_map_of_push(ks, ns, key@, name@);
            }
        },
    }
    *map = HiddenApps { keys, names };
}

/// Brings `key` back into the results.
pub fn unhide(map: &mut HiddenApps, key: &str)
    ensures
        final(map)@ == old(map)@.remove(key@),
{
    proof {
        use_type_invariant(&*map);
        lemma_map_of(map.key_seq(), map.name_seq());
    }
    let k = chars_of(key);
    let ghost ks = map.key_seq();
    let ghost ns = map.name_seq();
    match map.index_of(k.as_slice()) {
        Some(i) => {
            let mut keys = clone_strings(&map.keys);
            let mut names = clone_strings(&map.names);
            keys.remove(i);
            names.remove(i);
            proof {
                assert(string_views(keys@) =~= ks.remove(i as int));
                assert(string_views(names@) =~= ns.remove(i as int));
                lemma_map_of_remove(ks, ns, i as int);
            }
            *map = HiddenApps { keys, names };
        },
        None => {
            assert(map@ =~= map@.remove(key@));
        },
    }
}

/// Unhides every app.
pub fn clear(map: &mut HiddenApps)
    ensures
        final(map)@ == Map::<Seq<char>, Seq<char>>::empty(),
{
    *map = HiddenApps::new();
}

/// Hidden apps as (key, display name), ordered for a menu: by display
/// name, compared in lowercase.
pub fn sorted(map: &HiddenApps) -> (r: Vec<(String, String)>)
    ensures
        r@.len() == map@.len(),
        forall|i: int|
            0 <= i < r@.len() ==> map@.dom().contains((#[trigger] r@[i]).0@) && map@[r@[i].0@]
                == r@[i].1@,
        forall|i: int, j: int| 0 <= i < j < r@.len() ==> (#[trigger] r@[i]).0@ != (#[trigger] r@[j]).0@,
        forall|i: int, j: int|
            0 <= i < j < r@.len() ==> lex_le(
                spec_lowercase((#[trigger] r@[i]).1@),
                spec_lowercase((#[trigger] r@[j]).1@),
            ),
{
    proof {
        use_type_invariant(map);
        lemma_map_of(map.key_seq(), map.name_seq());
    }
    let ghost ks = map.key_seq();
    let ghost ns = map.name_seq();
    let mut lows: Vec<Vec<char>> = Vec::new();
    let mut i: usize = 0;
    while i < map.names.len()
        invariant
            ns == map.name_seq(),
            i <= ns.len(),
            lows@.len() == i,
            forall|k: int| 0 <= k < i ==> (#[trigger] lows@[k])@ == spec_lowercase(ns[k]),
        decreases map.names.len() - i,
    {
        let n = chars_of(map.names[i].as_str());
        lows.push(lowercase(n.as_slice()));
        i = i + 1;
    }
    let order = sort_indices_lex(&lows);
    let mut out: Vec<(String, String)> = Vec::new();
    let mut j: usize = 0;
    while j < order.len()
        invariant
            ks == map.key_seq(),
            ns == map.name_seq(),
            ks.len() == ns.len(),
            distinct_keys(ks),
            lows@.len() == ns.len(),
            forall|k: int| 0 <= k < ns.len() ==> (#[trigger] lows@[k])@ == spec_lowercase(ns[k]),
            is_permutation(order@, lows@.len()),
            sorted_by_lex(order@, views(lows@)),
            j <= order@.len(),
            out@.len() == j,
            forall|k: int|
                0 <= k < j ==> (#[trigger] out@[k]).0@ == ks[order@[k] as int] && out@[k].1@
                    == ns[order@[k] as int],
        decreases order.len() - j,
    {
        let o = order[j];
        out.push((map.keys[o].clone(), map.names[o].clone()));
        j = j + 1;
    }
    proof {
        assert forall|a: int, b: int| 0 <= a < b < out@.len() implies (#[trigger] out@[a]).0@
            != (#[trigger] out@[b]).0@ by {
            assert(order@[a] != order@[b]);
        }
        assert forall|a: int, b: int| 0 <= a < b < out@.len() implies lex_le(
            spec_lowercase((#[trigger] out@[a]).1@),
            spec_lowercase((#[trigger] out@[b]).1@),
        ) by {
            assert(lex_le(views(lows@)[order@[a] as int], views(lows@)[order@[b] as int]));
            assert(views(lows@)[order@[a] as int] == lows@[order@[a] as int]@);
            assert(views(lows@)[order@[b] as int] == lows@[order@[b] as int]@);
        }
        assert forall|k: int| 0 <= k < out@.len() implies map@.dom().contains(
            (#[trigger] out@[k]).0@,
        ) && map@[out@[k].0@] == out@[k].1@ by {
            let o = order@[k] as int;
            assert(ks.contains(ks[o]));
        }
    }
    out
}

// ------------------------------------------------------------ the file

/// The file line for one hidden app.
pub open spec fn hidden_line(key: Seq<char>, name: Seq<char>) -> Seq<char> {
    key + seq!['\t'] + name
}

/// The file text for keys `ks` with names `ns`, one line each, in order.
pub open spec fn render_pairs(ks: Seq<Seq<char>>, ns: Seq<Seq<char>>) -> Seq<char>
    decreases ks.len(),
{
    if ks.len() == 0 || ns.len() == 0 {
        Seq::empty()
    } else {
        hidden_line(ks[0], ns[0]) + seq!['\n'] + render_pairs(ks.drop_first(), ns.drop_first())
    }
}

/// What one file line adds: a line `key<TAB>name` with a non-empty key
/// hides `key` under `name`; any other line is skipped.
pub open spec fn hidden_apply(m: Map<Seq<char>, Seq<char>>, line: Seq<char>) -> Map<
    Seq<char>,
    Seq<char>,
> {
    match split_once(line, '\t') {
        Some((k, n)) => if k.len() > 0 {
            m.insert(k, n)
        } else {
            m
        },
        None => m,
    }
}

/// All lines, in order.
pub open spec fn hidden_fold(m: Map<Seq<char>, Seq<char>>, ls: Seq<Seq<char>>) -> Map<
    Seq<char>,
    Seq<char>,
>
    decreases ls.len(),
{
    if ls.len() == 0 {
        m
    } else {
        hidden_apply(hidden_fold(m, ls.drop_last()), ls.last())
    }
}

/// The list a file text holds.
pub open spec fn spec_parse_hidden(text: Seq<char>) -> Map<Seq<char>, Seq<char>> {
    hidden_fold(Map::empty(), lines(text))
}

/// Reads the hidden-apps file.
pub fn parse_hidden(text: &str) -> (r: HiddenApps)
    ensures
        r@ == spec_parse_hidden(text@),
{
    let chars = chars_of(text);
    let ls = lines_of(chars.as_slice());
    let ghost lsv = views(ls@);
    let mut map = HiddenApps::new();
    let mut i: usize = 0;
    while i < ls.len()
        invariant
            lsv == views(ls@),
            lsv == lines(text@),
            i <= ls@.len(),
            map@ == hidden_fold(Map::empty(), lsv.take(i as int)),
        decreases ls.len() - i,
    {
        assert(lsv.take(i + 1).drop_last() =~= lsv.take(i as int));
        assert(ls@[i as int]@ == lsv[i as int]);
        match split_once_chars(ls[i].as_slice(), '\t') {
            Some((k, n)) => {
                if k.len() > 0 {
                    let ks = string_of(k.as_slice());
                    let ns = string_of(n.as_slice());
                    hide_app(&mut map, ks.as_str(), ns.as_str());
                }
            },
            None => {},
        }
        i = i + 1;
    }
    assert(lsv.take(i as int) =~= lsv);
    map
}

/// The file text for a list.
pub fn render_hidden(map: &HiddenApps) -> (r: String)
    ensures
        r@ == render_pairs(map.key_seq(), map.name_seq()),
        map.key_seq().len() == map.name_seq().len(),
        distinct_keys(map.key_seq()),
{
    proof {
        use_type_invariant(map);
    }
    let mut out = String::new();
    let mut i: usize = 0;
    let ghost ks = map.key_seq();
    let ghost ns = map.name_seq();
    proof {
        lemma_render_split(ks, ns, 0);
    }
    while i < map.keys.len()
        invariant
            ks == map.key_seq(),
            ns == map.name_seq(),
            ks.len() == ns.len(),
            i <= ks.len(),
            render_pairs(ks, ns) == out@ + render_pairs(ks.skip(i as int), ns.skip(i as int)),
        decreases map.keys.len() - i,
    {
        out.append(map.keys[i].as_str());
        out.append("\t");
        out.append(map.names[i].as_str());
        out.append("\n");
        proof {
            reveal_strlit("\t");
            reveal_strlit("\n");
            let a = ks.skip(i as int);
            let b = ns.skip(i as int);
            assert(a.drop_first() =~= ks.skip(i + 1));
            assert(b.drop_first() =~= ns.skip(i + 1));
            assert(a[0] == ks[i as int]);
            assert(b[0] == ns[i as int]);
        }
        i = i + 1;
    }
    proof {
        assert(ks.skip(i as int).len() == 0);
        assert(out@ + Seq::<char>::empty() =~= out@);
    }
    out
}

proof fn lemma_render_split(ks: Seq<Seq<char>>, ns: Seq<Seq<char>>, i: int)
    requires
        i == 0,
    ensures
        render_pairs(ks, ns) == Seq::<char>::empty() + render_pairs(ks.skip(i), ns.skip(i)),
{
    assert(ks.skip(0) =~= ks);
    assert(ns.skip(0) =~= ns);
    assert(Seq::<char>::empty() + render_pairs(ks, ns) =~= render_pairs(ks, ns));
}

// ------------------------------------------------------------ round trip

/// A key and name the file can hold: a non-empty key without tab or line
/// break, a name without line break that does not end in `'\r'`.
pub open spec fn storable(key: Seq<char>, name: Seq<char>) -> bool {
    &&& key.len() > 0
    &&& !key.contains('\t')
    &&& !key.contains('\n')
    &&& !name.contains('\n')
    &&& (name.len() > 0 ==> name.last() != '\r')
}

proof fn lemma_render_lines(ks: Seq<Seq<char>>, ns: Seq<Seq<char>>)
    requires
        ks.len() == ns.len(),
        forall|i: int| 0 <= i < ks.len() ==> storable(#[trigger] ks[i], ns[i]),
    ensures
        lines(render_pairs(ks, ns)) == Seq::new(ks.len(), |i: int| hidden_line(ks[i], ns[i])),
    decreases ks.len(),
{
    if ks.len() == 0 {
        assert(lines(render_pairs(ks, ns)) =~= Seq::new(ks.len(), |i: int| hidden_line(ks[i], ns[i])));
    } else {
        let l = hidden_line(ks[0], ns[0]);
        assert(storable(ks[0], ns[0]));
        assert(!l.contains('\n')) by {
            if l.contains('\n') {
                let j = choose|j: int| 0 <= j < l.len() && l[j] == '\n';
                if j < ks[0].len() {
                    assert(ks[0][j] == '\n');
                } else if j > ks[0].len() {
                    assert(ns[0][j - ks[0].len() - 1] == '\n');
                }
            }
        }
        assert(strip_cr(l) == l) by {
            if ns[0].len() > 0 {
                assert(l.last() == ns[0].last());
            } else {
                assert(l.last() == '\t');
            }
        }
        let dk = ks.drop_first();
        let dn = ns.drop_first();
        assert forall|i: int| 0 <= i < dk.len() implies storable(#[trigger] dk[i], dn[i]) by {
            assert(storable(ks[i + 1], ns[i + 1]));
        }
        lemma_render_lines(dk, dn);
        lemma_lines_cons(l, render_pairs(dk, dn));
        assert(render_pairs(ks, ns) == l + seq!['\n'] + render_pairs(dk, dn));
        assert(lines(render_pairs(ks, ns)) =~= Seq::new(
            ks.len(),
            |i: int| hidden_line(ks[i], ns[i]),
        ));
    }
}

proof fn lemma_fold_lines(ks: Seq<Seq<char>>, ns: Seq<Seq<char>>)
    requires
        ks.len() == ns.len(),
        forall|i: int| 0 <= i < ks.len() ==> storable(#[trigger] ks[i], ns[i]),
    ensures
        hidden_fold(Map::empty(), Seq::new(ks.len(), |i: int| hidden_line(ks[i], ns[i])))
            == map_of(ks, ns),
    decreases ks.len(),
{
    let ls = Seq::new(ks.len(), |i: int| hidden_line(ks[i], ns[i]));
    if ks.len() > 0 {
        let dk = ks.drop_last();
        let dn = ns.drop_last();
        assert forall|i: int| 0 <= i < dk.len() implies storable(#[trigger] dk[i], dn[i]) by {
            assert(storable(ks[i], ns[i]));
        }
        lemma_fold_lines(dk, dn);
        assert(ls.drop_last() =~= Seq::new(dk.len(), |i: int| hidden_line(dk[i], dn[i])));
        let k = ks.last();
        let n = ns.last();
        assert(storable(ks[ks.len() - 1], ns[ns.len() - 1]));
        let l = hidden_line(k, n);
        assert(ls.last() == l);
        assert forall|j: int| 0 <= j < k.len() implies l[j] != '\t' by {
            assert(l[j] == k[j]);
        }
        lemma_find_at(l, '\t', k.len() as int);
        assert(l.take(k.len() as int) =~= k);
        assert(l.skip(k.len() as int + 1) =~= n);
    }
}

/// Hidden apps stay hidden across restarts: reading back the text written
/// for a list (distinct keys `ks`, names `ns`) gives the same list, whenever
/// its keys and names are ones the one-line-per-app format can hold.
pub proof fn lemma_hidden_round_trip(ks: Seq<Seq<char>>, ns: Seq<Seq<char>>)
    requires
        ks.len() == ns.len(),
        distinct_keys(ks),
        forall|i: int| 0 <= i < ks.len() ==> storable(#[trigger] ks[i], ns[i]),
    ensures
        spec_parse_hidden(render_pairs(ks, ns)) == map_of(ks, ns),
{
    lemma_render_lines(ks, ns);
    lemma_fold_lines(ks, ns);
}

} // verus!

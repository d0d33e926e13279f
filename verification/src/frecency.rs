//! Launch counts per app display name. Capped at scoring time, so no decay
//! bookkeeping is needed. On disk: one `count<TAB>name` line per app.

use vstd::prelude::*;

use crate::config::string_views;
use crate::keyed::{
    distinct_keys, lemma_map_of, lemma_map_of_push, lemma_map_of_update, map_of,
};
use crate::text::{
    chars_of, clone_strings, dec_digits, dec_string, eq_chars, lemma_dec_digits_parse, lemma_find_at,
    lemma_lines_cons, lines, lines_of, parse_unsigned, parse_unsigned_chars, split_once,
    split_once_chars, string_of, strip_cr, views,
};

verus! {

/// Launch counts: display name -> times launched.
pub struct Frecency {
    names: Vec<String>,
    counts: Vec<u32>,
}

impl Frecency {
    #[verifier::type_invariant]
    closed spec fn inv(self) -> bool {
        &&& self.names@.len() == self.counts@.len()
        &&& distinct_keys(string_views(self.names@))
    }

    /// The names, in the order the table keeps them.
    pub closed spec fn name_seq(&self) -> Seq<Seq<char>> {
        string_views(self.names@)
    }

    /// The counts, parallel to `name_seq`.
    pub closed spec fn count_seq(&self) -> Seq<u32> {
        self.counts@
    }

    /// An empty table.
    pub fn new() -> (r: Frecency)
        ensures
            r@ == Map::<Seq<char>, u32>::empty(),
    {
        let r = Frecency { names: Vec::new(), counts: Vec::new() };
        assert(string_views(r.names@) =~= Seq::<Seq<char>>::empty());
        r
    }

    fn index_of(&self, name: &[char]) -> (r: Option<usize>)
        ensures
            match r {
                Some(i) => i < self.name_seq().len() && self.name_seq()[i as int] == name@,
                None => !self.name_seq().contains(name@),
            },
    {
        let mut i: usize = 0;
        while i < self.names.len()
            invariant
                i <= self.names@.len(),
                forall|j: int| 0 <= j < i ==> self.name_seq()[j] != name@,
            decreases self.names.len() - i,
        {
            let k = chars_of(self.names[i].as_str());
            if eq_chars(k.as_slice(), name) {
                return Some(i);
            }
            i = i + 1;
        }
        None
    }

    /// How often `name` was launched (0 if never).
    pub fn count(&self, name: &str) -> (r: u32)
        ensures
            r == (if self@.dom().contains(name@) {
                self@[name@]
            } else {
                0
            }),
    {
        proof {
            use_type_invariant(self);
            lemma_map_of(self.name_seq(), self.count_seq());
        }
        let n = chars_of(name);
        match self.index_of(n.as_slice()) {
            Some(i) => self.counts[i],
            None => 0,
        }
    }

    /// The stored (name, count) pairs, in the table's order.
    pub fn entries(&self) -> (r: Vec<(String, u32)>)
        ensures
            r@.len() == self.name_seq().len(),
            forall|i: int|
                0 <= i < r@.len() ==> (#[trigger] r@[i]).0@ == self.name_seq()[i] && r@[i].1
                    == self.count_seq()[i],
    {
        proof {
            use_type_invariant(self);
        }
        let mut out: Vec<(String, u32)> = Vec::new();
        let mut i: usize = 0;
        while i < self.names.len()
            invariant
                self.names@.len() == self.counts@.len(),
                i <= self.names@.len(),
                out@.len() == i,
                forall|j: int|
                    0 <= j < i ==> (#[trigger] out@[j]).0@ == self.name_seq()[j] && out@[j].1
                        == self.count_seq()[j],
            decreases self.names.len() - i,
        {
            out.push((self.names[i].clone(), self.counts[i]));
            i = i + 1;
        }
        out
    }

    /// Sets the count of `name`.
    pub fn set(&mut self, name: &str, count: u32)
        ensures
            final(self)@ == old(self)@.insert(name@, count),
    {
        proof {
            use_type_invariant(&*self);
        }
        let n = chars_of(name);
        let ghost ns = self.name_seq();
        let ghost cs = self.count_seq();
        let mut names = clone_strings(&self.names);
        let mut counts = self.counts.clone();
        assert(counts@ =~= cs);
        match self.index_of(n.as_slice()) {
            Some(i) => {
                counts.set(i, count);
                proof {
                    lemma_map_of_update(ns, cs, i as int, count);
                }
            },
            None => {
                names.push(String::from_str(name));
                counts.push(count);
                proof {
                    assert(string_views(names@) =~= ns.push(name@));
                    lemma_map_of_push(ns, cs, name@, count);
                }
            },
        }
        *self = Frecency { names, counts };
    }
}

impl View for Frecency {
    type V = Map<Seq<char>, u32>;

    open spec fn view(&self) -> Map<Seq<char>, u32> {
        map_of(self.name_seq(), self.count_seq())
    }
}

/// Counts one more launch of `name`.
pub fn bump(map: &mut Frecency, name: &str)
    requires
        old(map)@.dom().contains(name@) ==> old(map)@[name@] < u32::MAX,
    ensures
        final(map)@ == old(map)@.insert(
            name@,
            (if old(map)@.dom().contains(name@) {
                old(map)@[name@] + 1
            } else {
                1
            }) as u32,
        ),
{
    let c = map.count(name);
    map.set(name, c + 1);
}

// ------------------------------------------------------------ the file

/// The file line for one app.
pub open spec fn count_line(name: Seq<char>, count: u32) -> Seq<char> {
    dec_digits(count as nat) + seq!['\t'] + name
}

/// The file text for names `ns` with counts `cs`, one line each, in order.
pub open spec fn render_counts(ns: Seq<Seq<char>>, cs: Seq<u32>) -> Seq<char>
    decreases ns.len(),
{
    if ns.len() == 0 || cs.len() == 0 {
        Seq::empty()
    } else {
        count_line(ns[0], cs[0]) + seq!['\n'] + render_counts(ns.drop_first(), cs.drop_first())
    }
}

/// What one file line adds: `count<TAB>name` with a count that parses as
/// a `u32` sets that name's count; any other line is skipped.
pub open spec fn count_apply(m: Map<Seq<char>, u32>, line: Seq<char>) -> Map<Seq<char>, u32> {
    match split_once(line, '\t') {
        Some((c, n)) => match parse_unsigned(c, 10, u32::MAX as nat) {
            Some(v) => m.insert(n, v as u32),
            None => m,
        },
        None => m,
    }
}

/// All lines, in order.
pub open spec fn count_fold(m: Map<Seq<char>, u32>, ls: Seq<Seq<char>>) -> Map<Seq<char>, u32>
    decreases ls.len(),
{
    if ls.len() == 0 {
        m
    } else {
        count_apply(count_fold(m, ls.drop_last()), ls.last())
    }
}

/// The table a file text holds.
pub open spec fn spec_parse_frecency(text: Seq<char>) -> Map<Seq<char>, u32> {
    count_fold(Map::empty(), lines(text))
}

/// Reads the launch-count file.
pub fn parse_frecency(text: &str) -> (r: Frecency)
    ensures
        r@ == spec_parse_frecency(text@),
{
    let chars = chars_of(text);
    let ls = lines_of(chars.as_slice());
    let ghost lsv = views(ls@);
    let mut map = Frecency::new();
    let mut i: usize = 0;
    while i < ls.len()
        invariant
            lsv == views(ls@),
            lsv == lines(text@),
            i <= ls@.len(),
            map@ == count_fold(Map::empty(), lsv.take(i as int)),
        decreases ls.len() - i,
    {
        assert(lsv.take(i + 1).drop_last() =~= lsv.take(i as int));
        assert(ls@[i as int]@ == lsv[i as int]);
        match split_once_chars(ls[i].as_slice(), '\t') {
            Some((c, n)) => {
                match parse_unsigned_chars(c.as_slice(), 10, 0xFFFF_FFFF) {
                    Some(v) => {
                        let ns = string_of(n.as_slice());
                        map.set(ns.as_str(), v as u32);
                    },
                    None => {},
                }
            },
            None => {},
        }
        i = i + 1;
    }
    assert(lsv.take(i as int) =~= lsv);
    map
}

/// The file text for a table.
pub fn render_frecency(map: &Frecency) -> (r: String)
    ensures
        r@ == render_counts(map.name_seq(), map.count_seq()),
        map.name_seq().len() == map.count_seq().len(),
        distinct_keys(map.name_seq()),
{
    proof {
        use_type_invariant(map);
    }
    let mut out = String::new();
    let mut i: usize = 0;
    let ghost ns = map.name_seq();
    let ghost cs = map.count_seq();
    proof {
        assert(ns.skip(0) =~= ns);
        assert(cs.skip(0) =~= cs);
        assert(out@ + render_counts(ns, cs) =~= render_counts(ns, cs));
    }
    while i < map.names.len()
        invariant
            ns == map.name_seq(),
            cs == map.count_seq(),
            ns.len() == cs.len(),
            i <= ns.len(),
            render_counts(ns, cs) == out@ + render_counts(ns.skip(i as int), cs.skip(i as int)),
        decreases map.names.len() - i,
    {
        let digits = dec_string(map.counts[i] as u64);
        let d = string_of(digits.as_slice());
        out.append(d.as_str());
        out.append("\t");
        out.append(map.names[i].as_str());
        out.append("\n");
        proof {
            reveal_strlit("\t");
            reveal_strlit("\n");
            let a = ns.skip(i as int);
            let b = cs.skip(i as int);
            assert(a.drop_first() =~= ns.skip(i + 1));
            assert(b.drop_first() =~= cs.skip(i + 1));
            assert(a[0] == ns[i as int]);
            assert(b[0] == cs[i as int]);
        }
        i = i + 1;
    }
    proof {
        assert(ns.skip(i as int).len() == 0);
        assert(out@ + Seq::<char>::empty() =~= out@);
    }
    out
}

// ------------------------------------------------------------ round trip

/// A name the file can hold: no line break, and not ending in `'\r'`.
pub open spec fn storable_name(name: Seq<char>) -> bool {
    &&& !name.contains('\n')
    &&& (name.len() > 0 ==> name.last() != '\r')
}

proof fn lemma_render_lines(ns: Seq<Seq<char>>, cs: Seq<u32>)
    requires
        ns.len() == cs.len(),
        forall|i: int| 0 <= i < ns.len() ==> storable_name(#[trigger] ns[i]),
    ensures
        lines(render_counts(ns, cs)) == Seq::new(ns.len(), |i: int| count_line(ns[i], cs[i])),
    decreases ns.len(),
{
    if ns.len() == 0 {
        assert(lines(render_counts(ns, cs)) =~= Seq::new(ns.len(), |i: int| count_line(ns[i], cs[i])));
    } else {
        let d = dec_digits(cs[0] as nat);
        lemma_dec_digits_parse(cs[0] as nat, u32::MAX as nat);
        let l = count_line(ns[0], cs[0]);
        assert(storable_name(ns[0]));
        assert(!l.contains('\n')) by {
            if l.contains('\n') {
                let j = choose|j: int| 0 <= j < l.len() && l[j] == '\n';
                if j < d.len() {
                    assert(d[j] == '\n');
                } else if j > d.len() {
                    assert(ns[0][j - d.len() - 1] == '\n');
                }
            }
        }
        assert(strip_cr(l) == l) by {
            if ns[0].len() > 0 {
                assert(l.last() == ns[0].last());
            } else {
                assert(l.last() == '\t');
            }
        }
        let dn = ns.drop_first();
        let dc = cs.drop_first();
        assert forall|i: int| 0 <= i < dn.len() implies storable_name(#[trigger] dn[i]) by {
            assert(storable_name(ns[i + 1]));
        }
        lemma_render_lines(dn, dc);
        lemma_lines_cons(l, render_counts(dn, dc));
        assert(lines(render_counts(ns, cs)) =~= Seq::new(ns.len(), |i: int| count_line(ns[i], cs[i])));
    }
}

proof fn lemma_fold_lines(ns: Seq<Seq<char>>, cs: Seq<u32>)
    requires
        ns.len() == cs.len(),
    ensures
        count_fold(Map::empty(), Seq::new(ns.len(), |i: int| count_line(ns[i], cs[i]))) == map_of(
            ns,
            cs,
        ),
    decreases ns.len(),
{
    let ls = Seq::new(ns.len(), |i: int| count_line(ns[i], cs[i]));
    if ns.len() > 0 {
        let dn = ns.drop_last();
        let dc = cs.drop_last();
        lemma_fold_lines(dn, dc);
        assert(ls.drop_last() =~= Seq::new(dn.len(), |i: int| count_line(dn[i], dc[i])));
        let n = ns.last();
        let c = cs.last();
        let d = dec_digits(c as nat);
        lemma_dec_digits_parse(c as nat, u32::MAX as nat);
        let l = count_line(n, c);
        assert(ls.last() == l);
        assert forall|j: int| 0 <= j < d.len() implies l[j] != '\t' by {
            assert(l[j] == d[j]);
        }
        lemma_find_at(l, '\t', d.len() as int);
        assert(l.take(d.len() as int) =~= d);
        assert(l.skip(d.len() as int + 1) =~= n);
    }
}

/// Launch counts survive a restart: reading back the text written for a
/// table (distinct names `ns`, counts `cs`) gives the same table, whenever
/// the names are ones the one-line-per-app format can hold.
pub proof fn lemma_frecency_round_trip(ns: Seq<Seq<char>>, cs: Seq<u32>)
    requires
        ns.len() == cs.len(),
        distinct_keys(ns),
        forall|i: int| 0 <= i < ns.len() ==> storable_name(#[trigger] ns[i]),
    ensures
        spec_parse_frecency(render_counts(ns, cs)) == map_of(ns, cs),
{
    lemma_render_lines(ns, cs);
    lemma_fold_lines(ns, cs);
}

} // verus!

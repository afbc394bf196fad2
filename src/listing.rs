//! Directory entries and the order in which a listing shows them:
//! directories first, then by lowercased name.
use vstd::prelude::*;
use vstd::multiset::{group_multiset_axioms, lemma_multiset_empty_len, Multiset};
use vstd::seq_lib::{lemma_multiset_commutative, to_multiset_build, to_multiset_len};

verus! {

/// One child of a directory.
pub struct Entry {
    pub name: String,
    pub path: String,
    pub is_dir: bool,
}

/// The mathematical value of an [`Entry`].
pub struct EntryView {
    pub name: Seq<char>,
    pub path: Seq<char>,
    pub is_dir: bool,
}

impl View for Entry {
    type V = EntryView;

    open spec fn view(&self) -> EntryView {
        EntryView { name: self.name@, path: self.path@, is_dir: self.is_dir }
    }
}

/// The views of a sequence of entries.
pub open spec fn views(s: Seq<Entry>) -> Seq<EntryView> {
    s.map_values(|e: Entry| e@)
}

impl Entry {
    /// Makes an entry from its name, its path and its kind.
    pub fn new(name: String, path: String, is_dir: bool) -> (r: Entry)
        ensures
            r@ == (EntryView { name: name@, path: path@, is_dir }),
    {
        Entry { name, path, is_dir }
    }
}

/// The lowercase form of a name, as Unicode defines it.
pub uninterp spec fn lower_of(s: Seq<char>) -> Seq<char>;

/// Relies on `str::to_lowercase`: its result depends on the characters of
/// the argument alone.
#[verifier::external_body]
fn lowercase(s: &str) -> (r: String)
    ensures
        r@ == lower_of(s@),
{
    s.to_lowercase()
}

/// Strict lexicographic order on character sequences, as `str`'s `<`.
pub open spec fn seq_lt(a: Seq<char>, b: Seq<char>) -> bool
    decreases a.len(),
{
    if a.len() == 0 {
        b.len() > 0
    } else if b.len() == 0 {
        false
    } else if a[0] != b[0] {
        a[0] < b[0]
    } else {
        seq_lt(a.drop_first(), b.drop_first())
    }
}

/// An entry of kind `a_dir` and sort key `a_key` goes strictly before one of
/// kind `b_dir` and key `b_key`: directories before files, then by key.
pub open spec fn key_before(a_dir: bool, a_key: Seq<char>, b_dir: bool, b_key: Seq<char>) -> bool {
    if a_dir != b_dir {
        a_dir
    } else {
        seq_lt(a_key, b_key)
    }
}

/// Entry `a` sorts strictly before entry `b`.
pub open spec fn entry_before(a: EntryView, b: EntryView) -> bool {
    key_before(a.is_dir, lower_of(a.name), b.is_dir, lower_of(b.name))
}

/// An entry paired with the key that it is sorted by.
pub type Keyed = (EntryView, Seq<char>);

/// Keyed entry `a` sorts strictly before keyed entry `b`.
pub open spec fn pair_before(a: Keyed, b: Keyed) -> bool {
    key_before(a.0.is_dir, a.1, b.0.is_dir, b.1)
}

/// `x` inserted into `s` before the first element that it sorts before.
pub open spec fn insert_pair(s: Seq<Keyed>, x: Keyed) -> Seq<Keyed>
    decreases s.len(),
{
    if s.len() == 0 {
        seq![x]
    } else if pair_before(x, s[0]) {
        seq![x] + s
    } else {
        seq![s[0]] + insert_pair(s.drop_first(), x)
    }
}

/// The stable sort of `s` by kind and key: each element in turn is inserted
/// after all those that it does not sort before.
pub open spec fn sorted_pairs(s: Seq<Keyed>) -> Seq<Keyed>
    decreases s.len(),
{
    if s.len() == 0 {
        Seq::empty()
    } else {
        insert_pair(sorted_pairs(s.drop_last()), s.last())
    }
}

/// Entries `es` paired one for one with keys `ks`.
pub open spec fn zip(es: Seq<EntryView>, ks: Seq<Seq<char>>) -> Seq<Keyed> {
    Seq::new(es.len(), |i: int| (es[i], ks[i]))
}

/// The entries of keyed entries, without their keys.
pub open spec fn firsts(s: Seq<Keyed>) -> Seq<EntryView> {
    s.map_values(|p: Keyed| p.0)
}

/// The views of a sequence of strings.
pub open spec fn strs(s: Seq<String>) -> Seq<Seq<char>> {
    s.map_values(|k: String| k@)
}

/// Each entry keyed by its lowercased name.
pub open spec fn keyed(s: Seq<EntryView>) -> Seq<Keyed> {
    s.map_values(|e: EntryView| (e, lower_of(e.name)))
}

/// Each key is the lowercased name of its entry.
pub open spec fn well_keyed(s: Seq<Keyed>) -> bool {
    forall|i: int| 0 <= i < s.len() ==> (#[trigger] s[i]).1 == lower_of(s[i].0.name)
}

/// The listing order of `s`: stable, directories before files, each kind
/// by lowercased name.
pub open spec fn sorted_entries(s: Seq<EntryView>) -> Seq<EntryView> {
    firsts(sorted_pairs(keyed(s)))
}

/// No element of `s` sorts strictly before the one in front of it.
pub open spec fn in_pair_order(s: Seq<Keyed>) -> bool {
    forall|i: int| 0 <= i < s.len() - 1 ==> !pair_before(#[trigger] s[i + 1], s[i])
}

/// No entry of `s` sorts strictly before the one in front of it: directories
/// come before files, and within a kind lowercased names do not go down.
pub open spec fn in_listing_order(s: Seq<EntryView>) -> bool {
    forall|i: int| 0 <= i < s.len() - 1 ==> !entry_before(#[trigger] s[i + 1], s[i])
}

proof fn lemma_seq_lt_asymmetric(a: Seq<char>, b: Seq<char>)
    ensures
        seq_lt(a, b) ==> !seq_lt(b, a),
    decreases a.len(),
{
    if a.len() > 0 && b.len() > 0 && a[0] == b[0] {
        lemma_seq_lt_asymmetric(a.drop_first(), b.drop_first());
    }
}

proof fn lemma_singleton_multiset<A>(x: A)
    ensures
        seq![x].to_multiset() == Multiset::<A>::empty().insert(x),
{
    broadcast use group_multiset_axioms;

    assert(seq![x] =~= Seq::<A>::empty().push(x));
    to_multiset_build(Seq::<A>::empty(), x);
    to_multiset_len(Seq::<A>::empty());
    lemma_multiset_empty_len(Seq::<A>::empty().to_multiset());
}

proof fn lemma_cons_multiset<A>(x: A, s: Seq<A>)
    ensures
        (seq![x] + s).to_multiset() == s.to_multiset().insert(x),
{
    broadcast use group_multiset_axioms;

    lemma_singleton_multiset(x);
    lemma_multiset_commutative(seq![x], s);
    assert((seq![x] + s).to_multiset() =~= s.to_multiset().insert(x));
}

proof fn lemma_insert_ordered(s: Seq<Keyed>, x: Keyed)
    requires
        in_pair_order(s),
    ensures
        in_pair_order(insert_pair(s, x)),
        insert_pair(s, x).len() == s.len() + 1,
        insert_pair(s, x)[0] == x || (s.len() > 0 && insert_pair(s, x)[0] == s[0]),
        insert_pair(s, x).to_multiset() == s.to_multiset().insert(x),
        firsts(insert_pair(s, x)).to_multiset() == firsts(s).to_multiset().insert(x.0),
        well_keyed(s) && x.1 == lower_of(x.0.name) ==> well_keyed(insert_pair(s, x)),
    decreases s.len(),
{
    broadcast use group_multiset_axioms;

    let r = insert_pair(s, x);
    if s.len() == 0 {
        to_multiset_len(s);
        lemma_multiset_empty_len(s.to_multiset());
        to_multiset_len(firsts(s));
        lemma_multiset_empty_len(firsts(s).to_multiset());
        assert(r == seq![x]);
        lemma_singleton_multiset(x);
        lemma_singleton_multiset(x.0);
        assert(firsts(r) =~= seq![x.0]);
        assert(r.to_multiset() =~= s.to_multiset().insert(x));
        assert(firsts(r).to_multiset() =~= firsts(s).to_multiset().insert(x.0));
    } else if pair_before(x, s[0]) {
        lemma_seq_lt_asymmetric(x.1, s[0].1);
        assert(!pair_before(s[0], x));
        assert(r == seq![x] + s);
        assert forall|i: int| 0 <= i < r.len() - 1 implies !pair_before(#[trigger] r[i + 1], r[i]) by {
            if i > 0 {
                assert(r[i] == s[i - 1] && r[i + 1] == s[i]);
                assert(!pair_before(s[(i - 1) + 1], s[i - 1]));
            } else {
                assert(r[0] == x && r[1] == s[0]);
            }
        }
        lemma_cons_multiset(x, s);
        assert(firsts(r) =~= seq![x.0] + firsts(s));
        lemma_cons_multiset(x.0, firsts(s));
        if well_keyed(s) && x.1 == lower_of(x.0.name) {
            assert forall|i: int| 0 <= i < r.len() implies (#[trigger] r[i]).1 == lower_of(
                r[i].0.name,
            ) by {
                if i > 0 {
                    assert(r[i] == s[i - 1]);
                }
            }
        }
    } else {
        let t = s.drop_first();
        assert(in_pair_order(t)) by {
            assert forall|i: int| 0 <= i < t.len() - 1 implies !pair_before(#[trigger] t[i + 1], t[i]) by {
                assert(t[i] == s[i + 1] && t[i + 1] == s[i + 2]);
                assert(!pair_before(s[(i + 1) + 1], s[i + 1]));
            }
        }
        lemma_insert_ordered(t, x);
        let u = insert_pair(t, x);
        assert(r == seq![s[0]] + u);
        assert forall|i: int| 0 <= i < r.len() - 1 implies !pair_before(#[trigger] r[i + 1], r[i]) by {
            if i == 0 {
                assert(r[1] == u[0]);
                if u[0] != x {
                    assert(u[0] == t[0] && t[0] == s[1]);
                    assert(!pair_before(s[0int + 1], s[0int]));
                }
            } else {
                assert(r[i] == u[i - 1] && r[i + 1] == u[i]);
                assert(!pair_before(u[(i - 1) + 1], u[i - 1]));
            }
        }
        assert(seq![s[0]] + t =~= s);
        lemma_cons_multiset(s[0], u);
        lemma_cons_multiset(s[0], t);
        assert(r.to_multiset() =~= s.to_multiset().insert(x));
        assert(firsts(r) =~= seq![s[0].0] + firsts(u));
        assert(firsts(s) =~= seq![s[0].0] + firsts(t));
        lemma_cons_multiset(s[0].0, firsts(u));
        lemma_cons_multiset(s[0].0, firsts(t));
        assert(firsts(r).to_multiset() =~= firsts(s).to_multiset().insert(x.0));
        if well_keyed(s) && x.1 == lower_of(x.0.name) {
            assert(well_keyed(t)) by {
                assert forall|i: int| 0 <= i < t.len() implies (#[trigger] t[i]).1 == lower_of(
                    t[i].0.name,
                ) by {
                    assert(t[i] == s[i + 1]);
                }
            }
            assert forall|i: int| 0 <= i < r.len() implies (#[trigger] r[i]).1 == lower_of(
                r[i].0.name,
            ) by {
                if i > 0 {
                    assert(r[i] == u[i - 1]);
                } else {
                    assert(r[0] == s[0]);
                }
            }
        }
    }
}

/// Sorting by kind and key is a sort: it puts the keyed entries in order and
/// keeps each of them, as often as it occurs; keys that are the lowercased
/// names stay so.
pub proof fn lemma_sorted_pairs(s: Seq<Keyed>)
    ensures
        in_pair_order(sorted_pairs(s)),
        sorted_pairs(s).to_multiset() == s.to_multiset(),
        firsts(sorted_pairs(s)).to_multiset() == firsts(s).to_multiset(),
        well_keyed(s) ==> well_keyed(sorted_pairs(s)),
    decreases s.len(),
{
    broadcast use group_multiset_axioms;

    if s.len() == 0 {
        to_multiset_len(s);
        lemma_multiset_empty_len(s.to_multiset());
        to_multiset_len(sorted_pairs(s));
        lemma_multiset_empty_len(sorted_pairs(s).to_multiset());
        assert(sorted_pairs(s).to_multiset() =~= s.to_multiset());
        assert(firsts(sorted_pairs(s)) =~= firsts(s));
    } else {
        let init = s.drop_last();
        lemma_sorted_pairs(init);
        lemma_insert_ordered(sorted_pairs(init), s.last());
        assert(init.push(s.last()) =~= s);
        to_multiset_build(init, s.last());
        assert(firsts(init).push(s.last().0) =~= firsts(s));
        to_multiset_build(firsts(init), s.last().0);
        if well_keyed(s) {
            assert forall|i: int| 0 <= i < init.len() implies (#[trigger] init[i]).1 == lower_of(
                init[i].0.name,
            ) by {
                assert(init[i] == s[i]);
            }
            assert(s.last() == s[s.len() - 1]);
        }
    }
}

/// The listing order is a sort: it puts the entries in listing order and
/// keeps each of them, as often as it occurs.
pub proof fn lemma_sorted_entries(s: Seq<EntryView>)
    ensures
        in_listing_order(sorted_entries(s)),
        sorted_entries(s).to_multiset() == s.to_multiset(),
{
    let k = keyed(s);
    lemma_sorted_pairs(k);
    assert(firsts(k) =~= s);
    let r = sorted_pairs(k);
    assert forall|i: int| 0 <= i < sorted_entries(s).len() - 1 implies !entry_before(
        #[trigger] sorted_entries(s)[i + 1],
        sorted_entries(s)[i],
    ) by {
        assert(!pair_before(r[i + 1], r[i]));
        assert(r[i].1 == lower_of(r[i].0.name));
        assert(r[i + 1].1 == lower_of(r[i + 1].0.name));
    }
}

/// Whether `a` is strictly less than `b` in lexicographic character order.
pub fn str_less(a: &str, b: &str) -> (r: bool)
    ensures
        r == seq_lt(a@, b@),
{
    let na = a.unicode_len();
    let nb = b.unicode_len();
    let mut i: usize = 0;
    assert(a@.skip(0) =~= a@);
    assert(b@.skip(0) =~= b@);
    while i < na && i < nb
        invariant
            na == a@.len(),
            nb == b@.len(),
            i <= na,
            i <= nb,
            seq_lt(a@, b@) == seq_lt(a@.skip(i as int), b@.skip(i as int)),
        decreases na - i,
    {
        let ca = a.get_char(i);
        let cb = b.get_char(i);
        assert(a@.skip(i as int)[0] == ca);
        assert(b@.skip(i as int)[0] == cb);
        if ca != cb {
            return ca < cb;
        }
        assert(a@.skip(i as int).drop_first() =~= a@.skip(i + 1));
        assert(b@.skip(i as int).drop_first() =~= b@.skip(i + 1));
        i = i + 1;
    }
    i == na && i < nb
}

/// Whether an entry of kind `a_dir` and sort key `a_key` goes strictly before
/// one of kind `b_dir` and key `b_key`.
pub fn sorts_before_by_key(a_dir: bool, a_key: &str, b_dir: bool, b_key: &str) -> (r: bool)
    ensures
        r == key_before(a_dir, a_key@, b_dir, b_key@),
{
    if a_dir != b_dir {
        a_dir
    } else {
        str_less(a_key, b_key)
    }
}

/// Whether entry `a` sorts strictly before entry `b`.
pub fn sorts_before(a: &Entry, b: &Entry) -> (r: bool)
    ensures
        r == entry_before(a@, b@),
{
    let ka = lowercase(a.name.as_str());
    let kb = lowercase(b.name.as_str());
    sorts_before_by_key(a.is_dir, ka.as_str(), b.is_dir, kb.as_str())
}

proof fn lemma_insert_at(s: Seq<Keyed>, x: Keyed, j: int)
    requires
        0 <= j <= s.len(),
        forall|k: int| 0 <= k < j ==> !pair_before(x, #[trigger] s[k]),
        j < s.len() ==> pair_before(x, s[j]),
    ensures
        insert_pair(s, x) == s.take(j) + seq![x] + s.skip(j),
    decreases s.len(),
{
    if s.len() == 0 {
        assert(s.take(j) + seq![x] + s.skip(j) =~= seq![x]);
    } else if j == 0 {
        assert(s.take(j) + seq![x] + s.skip(j) =~= seq![x] + s);
    } else {
        let t = s.drop_first();
        assert forall|k: int| 0 <= k < j - 1 implies !pair_before(x, #[trigger] t[k]) by {
            assert(t[k] == s[k + 1]);
        }
        if j < s.len() {
            assert(t[j - 1] == s[j]);
        }
        assert(!pair_before(x, s[0]));
        lemma_insert_at(t, x, j - 1);
        assert(seq![s[0]] + (t.take(j - 1) + seq![x] + t.skip(j - 1)) =~= s.take(j) + seq![x]
            + s.skip(j));
    }
}

/// Puts entries in order by kind and by the key given for each: directories
/// before files, each kind by key, entries that compare equal in their given
/// order. `keys[i]` is the key of `entries[i]`.
pub fn sort_by_keys(entries: Vec<Entry>, keys: Vec<String>) -> (r: Vec<Entry>)
    requires
        entries@.len() == keys@.len(),
    ensures
        views(r@) == firsts(sorted_pairs(zip(views(entries@), strs(keys@)))),
{
    let ghost input = zip(views(entries@), strs(keys@));
    let mut rest = entries;
    let mut rest_keys = keys;
    let mut out: Vec<Entry> = Vec::new();
    let mut out_keys: Vec<String> = Vec::new();
    let n = rest.len();
    let mut i: usize = 0;
    assert(zip(views(rest@), strs(rest_keys@)) =~= input.skip(0));
    assert(zip(views(out@), strs(out_keys@)) =~= sorted_pairs(input.take(0)));
    while i < n
        invariant
            n == input.len(),
            i <= n,
            rest@.len() == n - i,
            rest_keys@.len() == n - i,
            zip(views(rest@), strs(rest_keys@)) == input.skip(i as int),
            out@.len() == out_keys@.len(),
            zip(views(out@), strs(out_keys@)) == sorted_pairs(input.take(i as int)),
        decreases n - i,
    {
        let ghost old_rest = rest@;
        let ghost old_keys = rest_keys@;
        let x = rest.remove(0);
        let xk = rest_keys.remove(0);
        let ghost xp: Keyed = (x@, xk@);
        assert(xp == input[i as int]) by {
            assert(zip(views(old_rest), strs(old_keys))[0] == input.skip(i as int)[0]);
        }
        assert(zip(views(rest@), strs(rest_keys@)) =~= input.skip(i + 1)) by {
            assert(rest@ =~= old_rest.skip(1));
            assert(rest_keys@ =~= old_keys.skip(1));
            assert forall|k: int| 0 <= k < n - i - 1 implies #[trigger] zip(
                views(rest@),
                strs(rest_keys@),
            )[k] == input.skip(i + 1)[k] by {
                assert(zip(views(old_rest), strs(old_keys))[k + 1] == input.skip(i as int)[k + 1]);
            }
        }
        let ghost cur = zip(views(out@), strs(out_keys@));
        let mut j: usize = 0;
        while j < out.len()
            invariant
                j <= out.len(),
                out@.len() == out_keys@.len(),
                cur == zip(views(out@), strs(out_keys@)),
                xp == (x@, xk@),
                forall|k: int| 0 <= k < j ==> !pair_before(xp, #[trigger] cur[k]),
            ensures
                j <= out.len(),
                forall|k: int| 0 <= k < j ==> !pair_before(xp, #[trigger] cur[k]),
                j < out.len() ==> pair_before(xp, cur[j as int]),
            decreases out.len() - j,
        {
            assert(cur[j as int] == (out@[j as int]@, out_keys@[j as int]@));
            if sorts_before_by_key(x.is_dir, xk.as_str(), out[j].is_dir, out_keys[j].as_str()) {
                break;
            }
            j = j + 1;
        }
        proof {
            lemma_insert_at(cur, xp, j as int);
            let t = input.take(i + 1);
            assert(t.drop_last() =~= input.take(i as int));
            assert(t.last() == xp);
        }
        out.insert(j, x);
        out_keys.insert(j, xk);
        assert(zip(views(out@), strs(out_keys@)) =~= cur.take(j as int) + seq![xp] + cur.skip(
            j as int,
        ));
        i = i + 1;
    }
    assert(input.take(n as int) =~= input);
    out
}

/// Puts a directory's entries in listing order: directories before files,
/// each kind by lowercased name, entries that compare equal in their given
/// order.
pub fn sort_entries(entries: Vec<Entry>) -> (r: Vec<Entry>)
    ensures
        views(r@) == sorted_entries(views(entries@)),
        in_listing_order(views(r@)),
        views(r@).to_multiset() == views(entries@).to_multiset(),
{
    let mut keys: Vec<String> = Vec::new();
    let mut i: usize = 0;
    while i < entries.len()
        invariant
            i <= entries@.len(),
            keys@.len() == i,
            forall|k: int| 0 <= k < i ==> (#[trigger] keys@[k])@ == lower_of(entries@[k].name@),
        decreases entries@.len() - i,
    {
        keys.push(lowercase(entries[i].name.as_str()));
        i = i + 1;
    }
    proof {
        assert(zip(views(entries@), strs(keys@)) =~= keyed(views(entries@)));
        lemma_sorted_entries(views(entries@));
    }
    sort_by_keys(entries, keys)
}

} // verus!

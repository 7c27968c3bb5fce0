//! Directory listings: the entries a listing shows, the order it shows
//! them in, and the bounded collection of entries from a directory read.
use vstd::prelude::*;
use vstd::multiset::Multiset;
use crate::path::{href_of, push_component, push_component_exec, path_to_href, remove_first_component, without_first_component};
use crate::text::{chars_of, string_of};

verus! {

broadcast use vstd::seq_lib::group_to_multiset_ensures;

/// One entry of a listing as it is rendered.
pub struct DirEntryInfo {
    pub name: String,
    pub is_dir: bool,
    pub size: u64,
    /// Root-relative link, URL-encoded, with a trailing `/` for directories.
    pub href: String,
    /// Modification time in seconds since the Unix epoch.
    pub datetime: i64,
}

/// The case-folded form of a text, as `str::to_lowercase` computes it.
pub uninterp spec fn lower_of(s: Seq<char>) -> Seq<char>;

/// Relies on `str::to_lowercase`: the lower-case form of `s`, which depends
/// on its characters alone.
#[verifier::external_body]
fn lowercase(s: &str) -> (r: String)
    ensures
        r@ == lower_of(s@),
{
    s.to_lowercase()
}

/// Strict lexicographic order on texts, character by character by code
/// point (the order of their UTF-8 bytes), a proper prefix first.
pub open spec fn lex_lt(a: Seq<char>, b: Seq<char>) -> bool
    decreases a.len(),
{
    if b.len() == 0 {
        false
    } else if a.len() == 0 {
        true
    } else if a[0] != b[0] {
        (a[0] as u32) < (b[0] as u32)
    } else {
        lex_lt(a.drop_first(), b.drop_first())
    }
}

/// Whether `a` is listed strictly before `b`: directories before files,
/// then by case-folded name.
pub open spec fn entry_lt(a: DirEntryInfo, b: DirEntryInfo) -> bool {
    (a.is_dir && !b.is_dir) || (a.is_dir == b.is_dir && lex_lt(lower_of(a.name@), lower_of(b.name@)))
}

/// Whether `s` is in listing order.
pub open spec fn listing_ordered(s: Seq<DirEntryInfo>) -> bool {
    forall|i: int, j: int| 0 <= i < j < s.len() ==> !entry_lt(#[trigger] s[j], #[trigger] s[i])
}

proof fn lemma_lex_asym(a: Seq<char>, b: Seq<char>)
    ensures
        !(lex_lt(a, b) && lex_lt(b, a)),
    decreases a.len(),
{
    if a.len() > 0 && b.len() > 0 && a[0] == b[0] {
        lemma_lex_asym(a.drop_first(), b.drop_first());
    }
}

proof fn lemma_lex_trans(a: Seq<char>, b: Seq<char>, c: Seq<char>)
    requires
        lex_lt(a, b),
        lex_lt(b, c),
    ensures
        lex_lt(a, c),
    decreases a.len(),
{
    if a.len() > 0 && b.len() > 0 && c.len() > 0 && a[0] == b[0] && b[0] == c[0] {
        lemma_lex_trans(a.drop_first(), b.drop_first(), c.drop_first());
    }
}

fn lex_lt_exec(a: &Vec<char>, b: &Vec<char>) -> (r: bool)
    ensures
        r == lex_lt(a@, b@),
{
    let mut i: usize = 0;
    assert(a@.skip(0) =~= a@);
    assert(b@.skip(0) =~= b@);
    while i < a.len() && i < b.len()
        invariant
            i <= a@.len(),
            i <= b@.len(),
            lex_lt(a@, b@) == lex_lt(a@.skip(i as int), b@.skip(i as int)),
        decreases a@.len() - i,
    {
        assert(a@.skip(i as int)[0] == a@[i as int]);
        assert(b@.skip(i as int)[0] == b@[i as int]);
        if a[i] != b[i] {
            return (a[i] as u32) < (b[i] as u32);
        }
        assert(a@.skip(i as int).drop_first() =~= a@.skip(i + 1));
        assert(b@.skip(i as int).drop_first() =~= b@.skip(i + 1));
        i = i + 1;
    }
    assert(a@.skip(i as int).len() == a@.len() - i);
    assert(b@.skip(i as int).len() == b@.len() - i);
    a.len() - i < b.len() - i
}

fn entry_lt_exec(a_dir: bool, a_key: &Vec<char>, b_dir: bool, b_key: &Vec<char>) -> (r: bool)
    ensures
        r == ((a_dir && !b_dir) || (a_dir == b_dir && lex_lt(a_key@, b_key@))),
{
    if a_dir != b_dir {
        a_dir
    } else {
        lex_lt_exec(a_key, b_key)
    }
}

/// Whether keyed entry `a` goes strictly before `b`: directories before
/// files, then by key.
pub open spec fn keyed_lt(a: (Vec<char>, DirEntryInfo), b: (Vec<char>, DirEntryInfo)) -> bool {
    (a.1.is_dir && !b.1.is_dir) || (a.1.is_dir == b.1.is_dir && lex_lt(a.0@, b.0@))
}

/// Whether `s` is ordered by `keyed_lt`.
pub open spec fn keyed_ordered(s: Seq<(Vec<char>, DirEntryInfo)>) -> bool {
    forall|i: int, j: int| 0 <= i < j < s.len() ==> !keyed_lt(#[trigger] s[j], #[trigger] s[i])
}

proof fn lemma_keyed_lt_order(
    a: (Vec<char>, DirEntryInfo),
    b: (Vec<char>, DirEntryInfo),
    c: (Vec<char>, DirEntryInfo),
)
    ensures
        !(keyed_lt(a, b) && keyed_lt(b, a)),
        keyed_lt(a, b) && keyed_lt(b, c) ==> keyed_lt(a, c),
{
    lemma_lex_asym(a.0@, b.0@);
    if keyed_lt(a, b) && keyed_lt(b, c) && a.1.is_dir == b.1.is_dir && b.1.is_dir == c.1.is_dir {
        lemma_lex_trans(a.0@, b.0@, c.0@);
    }
}

/// Where `e` goes in `s` when it goes after every element from `i` on that
/// it does not precede.
pub open spec fn keyed_slot(s: Seq<(Vec<char>, DirEntryInfo)>, e: (Vec<char>, DirEntryInfo), i: nat) -> nat
    decreases s.len() - i,
{
    if i >= s.len() || keyed_lt(e, s[i as int]) {
        i
    } else {
        keyed_slot(s, e, i + 1)
    }
}

/// `s` stably sorted by `keyed_lt`: each element in turn goes after every
/// element placed before it that it does not precede.
pub open spec fn stable_keyed(s: Seq<(Vec<char>, DirEntryInfo)>) -> Seq<(Vec<char>, DirEntryInfo)>
    decreases s.len(),
{
    if s.len() == 0 {
        s
    } else {
        let t = stable_keyed(s.drop_last());
        t.insert(keyed_slot(t, s.last(), 0) as int, s.last())
    }
}

/// Where `e` goes in `s` when it goes after every entry from `i` on that it
/// is not listed before.
pub open spec fn entry_slot(s: Seq<DirEntryInfo>, e: DirEntryInfo, i: nat) -> nat
    decreases s.len() - i,
{
    if i >= s.len() || entry_lt(e, s[i as int]) {
        i
    } else {
        entry_slot(s, e, i + 1)
    }
}

/// `s` stably sorted into listing order: each entry in turn goes after
/// every entry placed before it that it is not listed before.
pub open spec fn stable_listing(s: Seq<DirEntryInfo>) -> Seq<DirEntryInfo>
    decreases s.len(),
{
    if s.len() == 0 {
        s
    } else {
        let t = stable_listing(s.drop_last());
        t.insert(entry_slot(t, s.last(), 0) as int, s.last())
    }
}

proof fn lemma_keyed_slot_le(s: Seq<(Vec<char>, DirEntryInfo)>, e: (Vec<char>, DirEntryInfo), i: nat)
    requires
        i <= s.len(),
    ensures
        i <= keyed_slot(s, e, i) <= s.len(),
    decreases s.len() - i,
{
    if i < s.len() && !keyed_lt(e, s[i as int]) {
        lemma_keyed_slot_le(s, e, i + 1);
    }
}

/// Entries paired with their sort keys, ordered directories first and then
/// by key; pairs that compare equal keep their order.
pub fn sort_keyed(items: Vec<(Vec<char>, DirEntryInfo)>) -> (r: Vec<(Vec<char>, DirEntryInfo)>)
    ensures
        r@ == stable_keyed(items@),
        r@.len() == items@.len(),
        r@.to_multiset() == items@.to_multiset(),
        keyed_ordered(r@),
{
    let mut rest = items;
    let mut out: Vec<(Vec<char>, DirEntryInfo)> = Vec::new();
    let ghost mut done: int = 0;
    assert(items@.take(0) =~= Seq::<(Vec<char>, DirEntryInfo)>::empty());
    assert(items@.subrange(0, items@.len() as int) =~= items@);
    while rest.len() > 0
        invariant
            out@.to_multiset().add(rest@.to_multiset()) == items@.to_multiset(),
            keyed_ordered(out@),
            0 <= done <= items@.len(),
            rest@ == items@.subrange(done, items@.len() as int),
            out@ == stable_keyed(items@.take(done)),
        decreases rest@.len(),
    {
        let ghost old_rest = rest@;
        let e = rest.remove(0);
        proof {
            vstd::seq_lib::to_multiset_remove(old_rest, 0);
            assert(e == items@[done]);
            assert(items@.take(done + 1).drop_last() =~= items@.take(done));
            assert(items@.take(done + 1).last() == e);
            done = done + 1;
            assert(rest@ =~= items@.subrange(done, items@.len() as int));
        }
        let mut p: usize = 0;
        while p < out.len() && !entry_lt_exec(e.1.is_dir, &e.0, out[p].1.is_dir, &out[p].0)
            invariant
                p <= out@.len(),
                forall|k: int| 0 <= k < p ==> !keyed_lt(e, #[trigger] out@[k]),
                keyed_slot(out@, e, p as nat) == keyed_slot(out@, e, 0),
            decreases out@.len() - p,
        {
            p = p + 1;
        }
        let ghost old_out = out@;
        proof {
            assert forall|k: int| p <= k < old_out.len() implies !keyed_lt(#[trigger] old_out[k], e) by {
                lemma_keyed_lt_order(old_out[k], e, old_out[p as int]);
                lemma_keyed_lt_order(e, old_out[p as int], old_out[p as int]);
            }
        }
        out.insert(p, e);
        proof {
            vstd::seq_lib::to_multiset_insert(old_out, p as int, e);
            assert(out@.to_multiset().add(rest@.to_multiset()) =~= items@.to_multiset());
            assert forall|i: int, j: int| 0 <= i < j < out@.len() implies !keyed_lt(
                #[trigger] out@[j],
                #[trigger] out@[i],
            ) by {
                if j < p {
                    assert(out@[i] == old_out[i] && out@[j] == old_out[j]);
                } else if j == p {
                    assert(out@[i] == old_out[i]);
                } else if i < p {
                    assert(out@[i] == old_out[i] && out@[j] == old_out[j - 1]);
                } else if i == p {
                    assert(out@[j] == old_out[j - 1]);
                } else {
                    assert(out@[i] == old_out[i - 1] && out@[j] == old_out[j - 1]);
                }
            }
        }
    }
    proof {
        assert(rest@.to_multiset() =~= Multiset::empty());
        assert(out@.to_multiset().add(Multiset::empty()) =~= out@.to_multiset());
        assert(items@.take(done) =~= items@);
        vstd::seq_lib::to_multiset_len(out@);
        vstd::seq_lib::to_multiset_len(items@);
    }
    out
}

/// Second components of `s`.
pub open spec fn seconds(s: Seq<(Vec<char>, DirEntryInfo)>) -> Seq<DirEntryInfo> {
    s.map_values(|p: (Vec<char>, DirEntryInfo)| p.1)
}

proof fn lemma_seconds_multiset(s: Seq<(Vec<char>, DirEntryInfo)>, t: Seq<(Vec<char>, DirEntryInfo)>)
    requires
        s.to_multiset() == t.to_multiset(),
    ensures
        seconds(s).to_multiset() == seconds(t).to_multiset(),
    decreases s.len(),
{
    if s.len() == 0 {
        assert(t.to_multiset().len() == 0);
        assert(t.len() == 0);
        assert(seconds(s) =~= seconds(t));
    } else {
        let x = s.last();
        let s0 = s.drop_last();
        assert(s0.push(x) =~= s);
        vstd::seq_lib::to_multiset_build(s0, x);
        assert(t.to_multiset().count(x) > 0);
        assert(t.contains(x));
        let i = t.index_of(x);
        let t0 = t.remove(i);
        vstd::seq_lib::to_multiset_remove(t, i);
        assert(t0.to_multiset() =~= s0.to_multiset());
        lemma_seconds_multiset(s0, t0);
        assert(seconds(s) =~= seconds(s0).push(x.1));
        vstd::seq_lib::to_multiset_build(seconds(s0), x.1);
        assert(seconds(t0) =~= seconds(t).remove(i));
        vstd::seq_lib::to_multiset_remove(seconds(t), i);
        assert(seconds(t).to_multiset() =~= seconds(t0).to_multiset().insert(x.1));
    }
}

/// Whether every key in `s` is the case-folded name of its entry.
pub open spec fn folded_keys(s: Seq<(Vec<char>, DirEntryInfo)>) -> bool {
    forall|k: int| 0 <= k < s.len() ==> (#[trigger] s[k]).0@ == lower_of(s[k].1.name@)
}

proof fn lemma_slot_by_folded_keys(t: Seq<(Vec<char>, DirEntryInfo)>, x: (Vec<char>, DirEntryInfo), i: nat)
    requires
        folded_keys(t),
        x.0@ == lower_of(x.1.name@),
        i <= t.len(),
    ensures
        keyed_slot(t, x, i) == entry_slot(seconds(t), x.1, i),
    decreases t.len() - i,
{
    if i < t.len() {
        assert(t[i as int].0@ == lower_of(t[i as int].1.name@));
        assert(seconds(t)[i as int] == t[i as int].1);
        if !keyed_lt(x, t[i as int]) {
            lemma_slot_by_folded_keys(t, x, i + 1);
        }
    }
}

proof fn lemma_stable_by_folded_keys(s: Seq<(Vec<char>, DirEntryInfo)>)
    requires
        folded_keys(s),
    ensures
        folded_keys(stable_keyed(s)),
        seconds(stable_keyed(s)) == stable_listing(seconds(s)),
    decreases s.len(),
{
    if s.len() > 0 {
        let d = s.drop_last();
        let x = s.last();
        assert(folded_keys(d)) by {
            assert forall|k: int| 0 <= k < d.len() implies (#[trigger] d[k]).0@ == lower_of(d[k].1.name@) by {
                assert(d[k] == s[k]);
            }
        }
        assert(x == s[s.len() - 1]);
        lemma_stable_by_folded_keys(d);
        let t = stable_keyed(d);
        lemma_slot_by_folded_keys(t, x, 0);
        lemma_keyed_slot_le(t, x, 0);
        let p = keyed_slot(t, x, 0) as int;
        let n = t.insert(p, x);
        assert forall|k: int| 0 <= k < n.len() implies (#[trigger] n[k]).0@ == lower_of(n[k].1.name@) by {
            if k < p {
                assert(n[k] == t[k]);
            } else if k > p {
                assert(n[k] == t[k - 1]);
            }
        }
        assert(seconds(s).drop_last() =~= seconds(d));
        assert(seconds(s).last() == x.1);
        assert(seconds(n) =~= seconds(t).insert(p, x.1));
    }
}

/// `entries` in listing order: directories first, then files, each group
/// by case-folded name; entries that compare equal keep their order.
pub fn sort_entries(entries: Vec<DirEntryInfo>) -> (r: Vec<DirEntryInfo>)
    ensures
        r@ == stable_listing(entries@),
        r@.len() == entries@.len(),
        r@.to_multiset() == entries@.to_multiset(),
        listing_ordered(r@),
{
    let mut rest = entries;
    let mut items: Vec<(Vec<char>, DirEntryInfo)> = Vec::new();
    while rest.len() > 0
        invariant
            seconds(items@) + rest@ == entries@,
            forall|k: int| 0 <= k < items@.len() ==> (#[trigger] items@[k]).0@ == lower_of(items@[k].1.name@),
        decreases rest@.len(),
    {
        let ghost old_rest = rest@;
        let e = rest.remove(0);
        let key = chars_of(lowercase(e.name.as_str()).as_str());
        let ghost old_items = items@;
        items.push((key, e));
        assert(seconds(items@) =~= seconds(old_items).push(e));
        assert(seconds(items@) + rest@ =~= seconds(old_items) + old_rest);
    }
    assert(seconds(items@) + rest@ =~= seconds(items@));
    let ghost all = items@;
    let sorted = sort_keyed(items);
    let ghost ss = sorted@;
    proof {
        lemma_seconds_multiset(ss, all);
        assert forall|k: int| 0 <= k < ss.len() implies (#[trigger] ss[k]).0@ == lower_of(ss[k].1.name@) by {
            assert(ss.to_multiset().count(ss[k]) > 0);
            assert(all.contains(ss[k]));
        }
    }
    let mut left = sorted;
    let mut out: Vec<DirEntryInfo> = Vec::new();
    let ghost mut taken: int = 0;
    while left.len() > 0
        invariant
            0 <= taken <= ss.len(),
            left@ == ss.subrange(taken, ss.len() as int),
            out@ == seconds(ss.subrange(0, taken)),
        decreases left@.len(),
    {
        let p = left.remove(0);
        out.push(p.1);
        proof {
            assert(seconds(ss.subrange(0, taken + 1)) =~= seconds(ss.subrange(0, taken)).push(ss[taken].1));
            taken = taken + 1;
            assert(left@ =~= ss.subrange(taken, ss.len() as int));
        }
    }
    assert(ss.subrange(0, taken) =~= ss);
    proof {
        assert(folded_keys(all));
        lemma_stable_by_folded_keys(all);
        vstd::seq_lib::to_multiset_len(out@);
        vstd::seq_lib::to_multiset_len(entries@);
    }
    assert forall|i: int, j: int| 0 <= i < j < out@.len() implies !entry_lt(
        #[trigger] out@[j],
        #[trigger] out@[i],
    ) by {
        assert(!keyed_lt(ss[j], ss[i]));
    }
    out
}

/// One entry as a directory read reports it, with its metadata.
pub struct RawEntry {
    pub name: String,
    pub is_dir: bool,
    pub size: u64,
    /// Modification time in seconds since the Unix epoch.
    pub mtime: i64,
}

/// Whether a name is hidden from listings: it starts with `.`.
pub open spec fn is_hidden(name: Seq<char>) -> bool {
    name.len() > 0 && name[0] == '.'
}

/// The link of entry `name` in directory `dir`: the link of their joined
/// path, with `/` after it for a directory.
pub open spec fn entry_href(dir: Seq<char>, name: Seq<char>, is_dir: bool) -> Seq<char> {
    let h = href_of(push_component(dir, name));
    if is_dir {
        h.push('/')
    } else {
        h
    }
}

/// Whether `info` is what the listing of `dir` shows for `raw`.
pub open spec fn shows(info: DirEntryInfo, dir: Seq<char>, raw: RawEntry) -> bool {
    &&& info.name@ == raw.name@
    &&& info.is_dir == raw.is_dir
    &&& info.size == raw.size
    &&& info.datetime == raw.mtime
    &&& info.href@ == entry_href(dir, raw.name@, raw.is_dir)
}

/// Whether a listing that holds `taken` entries, bounded by `limit`, takes
/// entry `e`: it is visible and there is room.
pub open spec fn admits(taken: nat, limit: usize, e: RawEntry) -> bool {
    !is_hidden(e.name@) && taken < limit
}

/// The entries a listing bounded by `limit` keeps when `raws` are offered
/// to it in order.
pub open spec fn offered(limit: usize, raws: Seq<RawEntry>) -> Seq<RawEntry>
    decreases raws.len(),
{
    if raws.len() == 0 {
        raws
    } else {
        let prev = offered(limit, raws.drop_last());
        if admits(prev.len(), limit, raws.last()) {
            prev.push(raws.last())
        } else {
            prev
        }
    }
}

/// The entries of `raws` that are not hidden, in order.
pub open spec fn visible(raws: Seq<RawEntry>) -> Seq<RawEntry>
    decreases raws.len(),
{
    if raws.len() == 0 {
        raws
    } else if !is_hidden(raws.last().name@) {
        visible(raws.drop_last()).push(raws.last())
    } else {
        visible(raws.drop_last())
    }
}

/// A listing in progress: entries of directory `dir` are offered one at a
/// time, and at most `limit` visible ones are kept, in the order offered.
pub struct Enumeration {
    pub dir: String,
    pub limit: usize,
    pub entries: Vec<DirEntryInfo>,
    /// Every entry offered so far.
    pub seen: Ghost<Seq<RawEntry>>,
}

/// What a listing page shows: its entries in listing order, whether more
/// may exist than were read, and the breadcrumb of the directory.
pub struct IndexData {
    pub entry: Vec<DirEntryInfo>,
    pub maybe_truncated: bool,
    pub cwd: String,
}

fn hidden_exec(name: &str) -> (r: bool)
    ensures
        r == is_hidden(name@),
{
    let c = chars_of(name);
    c.len() > 0 && c[0] == '.'
}

/// The link of entry `name` in directory `dir`, with a trailing `/` for a
/// directory.
pub fn entry_link(dir: &str, name: &str, is_dir: bool) -> (r: String)
    ensures
        r@ == entry_href(dir@, name@, is_dir),
{
    let mut p = chars_of(dir);
    let n = chars_of(name);
    push_component_exec(&mut p, &n);
    let h = path_to_href(string_of(&p).as_str());
    if is_dir {
        let mut c = chars_of(h.as_str());
        c.push('/');
        string_of(&c)
    } else {
        h
    }
}

impl Enumeration {
    /// Each kept entry shows the entry it was made from.
    pub open spec fn wf(&self) -> bool {
        &&& self.entries@.len() == offered(self.limit, self.seen@).len()
        &&& forall|i: int|
            0 <= i < self.entries@.len() ==> shows(
                #[trigger] self.entries@[i],
                self.dir@,
                offered(self.limit, self.seen@)[i],
            )
    }

    /// An empty listing of `dir` that keeps at most `limit` entries.
    pub fn new(dir: String, limit: usize) -> (r: Self)
        ensures
            r.wf(),
            r.dir == dir,
            r.limit == limit,
            r.seen@ == Seq::<RawEntry>::empty(),
            r.entries@.len() == 0,
    {
        Enumeration { dir, limit, entries: Vec::new(), seen: Ghost(Seq::empty()) }
    }

    /// Whether the listing has room for more entries; once it has none,
    /// no further entry need be read.
    pub fn wants_more(&self) -> (r: bool)
        ensures
            r == (self.entries@.len() < self.limit),
    {
        self.entries.len() < self.limit
    }

    /// Offers the next entry read from the directory: it is kept when it is
    /// visible and there is room, and ignored otherwise.
    pub fn offer(&mut self, e: RawEntry)
        requires
            old(self).wf(),
        ensures
            final(self).wf(),
            final(self).dir == old(self).dir,
            final(self).limit == old(self).limit,
            final(self).seen@ == old(self).seen@.push(e),
            admits(old(self).entries@.len(), old(self).limit, e) ==> {
                &&& final(self).entries@.len() == old(self).entries@.len() + 1
                &&& final(self).entries@.drop_last() == old(self).entries@
                &&& shows(final(self).entries@.last(), old(self).dir@, e)
            },
            !admits(old(self).entries@.len(), old(self).limit, e) ==> final(self).entries@
                == old(self).entries@,
    {
        let ghost old_seen = self.seen@;
        let ghost new_seen = old_seen.push(e);
        proof {
            assert(new_seen.drop_last() =~= old_seen);
        }
        if self.entries.len() < self.limit && !hidden_exec(e.name.as_str()) {
            let href = entry_link(self.dir.as_str(), e.name.as_str(), e.is_dir);
            let info = DirEntryInfo {
                name: e.name,
                is_dir: e.is_dir,
                size: e.size,
                href,
                datetime: e.mtime,
            };
            self.entries.push(info);
            proof {
                assert forall|i: int| 0 <= i < self.entries@.len() implies shows(
                    #[trigger] self.entries@[i],
                    self.dir@,
                    offered(self.limit, new_seen)[i],
                ) by {
                    if i < self.entries@.len() - 1 {
                        assert(offered(self.limit, new_seen)[i] == offered(self.limit, old_seen)[i]);
                    }
                }
                assert(self.entries@.drop_last() =~= old(self).entries@);
            }
        }
        self.seen = Ghost(new_seen);
    }

    /// The listing page: the kept entries in listing order, the truncation
    /// signal (set when the listing is full, which may also mean that
    /// exactly `limit` entries existed), and the breadcrumb.
    pub fn finish(self) -> (r: IndexData)
        requires
            self.wf(),
        ensures
            r.entry@ == stable_listing(self.entries@),
            r.entry@.len() == self.entries@.len(),
            r.entry@.to_multiset() == self.entries@.to_multiset(),
            listing_ordered(r.entry@),
            forall|i: int| 0 <= i < r.entry@.len() ==> !is_hidden(#[trigger] r.entry@[i].name@),
            r.maybe_truncated == (self.entries@.len() == self.limit),
            r.cwd@ == without_first_component(self.dir@),
    {
        let n = self.entries.len();
        let truncated = n == self.limit;
        proof {
            lemma_offered_visible(self.limit, self.seen@);
            assert forall|x: DirEntryInfo| self.entries@.to_multiset().count(x) > 0 implies !is_hidden(x.name@) by {
                let i = self.entries@.index_of(x);
                assert(self.entries@.contains(x));
                assert(self.entries@[i] == x);
            }
        }
        let cwd = remove_first_component(self.dir.as_str());
        let entry = sort_entries(self.entries);
        proof {
            assert forall|i: int| 0 <= i < entry@.len() implies !is_hidden(#[trigger] entry@[i].name@) by {
                assert(entry@.contains(entry@[i]));
                assert(entry@.to_multiset().count(entry@[i]) > 0);
            }
        }
        IndexData { entry, maybe_truncated: truncated, cwd }
    }
}

/// Whatever the limit and the order of the entries, no hidden entry is
/// ever kept in a listing.
pub proof fn lemma_offered_visible(limit: usize, raws: Seq<RawEntry>)
    ensures
        forall|i: int| 0 <= i < offered(limit, raws).len() ==> !is_hidden(#[trigger] offered(limit, raws)[i].name@),
    decreases raws.len(),
{
    if raws.len() > 0 {
        lemma_offered_visible(limit, raws.drop_last());
        let prev = offered(limit, raws.drop_last());
        assert forall|i: int| 0 <= i < offered(limit, raws).len() implies !is_hidden(#[trigger] offered(limit, raws)[i].name@) by {
            if i < prev.len() {
                assert(offered(limit, raws)[i] == prev[i]);
            }
        }
    }
}

/// A listing keeps exactly the first `limit` visible entries offered to
/// it, or all of them when there are fewer.
pub proof fn lemma_offered_prefix(limit: usize, raws: Seq<RawEntry>)
    ensures
        offered(limit, raws) == visible(raws).take(
            if visible(raws).len() < limit {
                visible(raws).len() as int
            } else {
                limit as int
            },
        ),
    decreases raws.len(),
{
    let v = visible(raws);
    if raws.len() == 0 {
        assert(v.take(0) =~= raws);
    } else {
        let d = raws.drop_last();
        let e = raws.last();
        lemma_offered_prefix(limit, d);
        let pv = visible(d);
        if is_hidden(e.name@) {
        } else if pv.len() < limit {
            assert(pv.take(pv.len() as int) =~= pv);
            assert(v.take(v.len() as int) =~= v);
        } else {
            assert(v.take(limit as int) =~= pv.take(limit as int));
        }
    }
}

/// The truncation signal of a listing bounded by `limit > 0` over a
/// directory with `n` visible entries: `limit + 1` of them give `limit`
/// entries and the signal; exactly `limit` give the signal too, though
/// nothing was left out; `limit - 1` give all of them and no signal.
pub proof fn lemma_truncation_signal(limit: usize, raws: Seq<RawEntry>)
    requires
        limit > 0,
    ensures
        visible(raws).len() == limit + 1 ==> offered(limit, raws).len() == limit,
        visible(raws).len() >= limit ==> offered(limit, raws).len() == limit,
        visible(raws).len() + 1 == limit ==> offered(limit, raws).len() == limit - 1
            && offered(limit, raws).len() != limit,
        visible(raws).len() < limit ==> offered(limit, raws) == visible(raws),
{
    lemma_offered_prefix(limit, raws);
    let v = visible(raws);
    if v.len() < limit {
        assert(v.take(v.len() as int) =~= v);
    }
}

/// In a sequence in listing order every directory comes before every
/// file, and entries of one kind stand in case-insensitive lexicographic
/// order of their names.
pub proof fn lemma_listing_order(s: Seq<DirEntryInfo>)
    requires
        listing_ordered(s),
    ensures
        forall|i: int, j: int|
            0 <= i < j < s.len() && (#[trigger] s[j]).is_dir ==> (#[trigger] s[i]).is_dir,
        forall|i: int, j: int|
            0 <= i < j < s.len() && (#[trigger] s[i]).is_dir == (#[trigger] s[j]).is_dir
                ==> !lex_lt(lower_of(s[j].name@), lower_of(s[i].name@)),
{
    assert forall|i: int, j: int| 0 <= i < j < s.len() && (#[trigger] s[j]).is_dir implies (
    #[trigger] s[i]).is_dir by {
        assert(!entry_lt(s[j], s[i]));
    }
    assert forall|i: int, j: int|
        0 <= i < j < s.len() && (#[trigger] s[i]).is_dir == (#[trigger] s[j]).is_dir implies !lex_lt(
        lower_of(s[j].name@),
        lower_of(s[i].name@),
    ) by {
        assert(!entry_lt(s[j], s[i]));
    }
}

} // verus!

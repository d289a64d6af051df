//! The process list: entries of a process snapshot turned into named
//! processes, sorted by name for browsing.

use vstd::prelude::*;
use crate::text::{from_utf16_lossy, lowercase, to_lowercase_chars, utf16_lossy};
use crate::types::ProcessInfo;

verus! {

/// One entry of a process snapshot: the process id and the executable's
/// file name as a NUL-terminated UTF-16 buffer.
#[derive(Debug, Clone)]
pub struct RawProcessEntry {
    pub pid: u32,
    pub exe_file: Vec<u16>,
}

impl View for ProcessInfo {
    type V = (u32, Seq<char>);

    open spec fn view(&self) -> (u32, Seq<char>) {
        (self.pid, self.name@)
    }
}

/// The code units before the first NUL, or all of them when there is none.
pub open spec fn until_nul(units: Seq<u16>) -> Seq<u16>
    decreases units.len(),
{
    if units.len() == 0 || units[0] == 0 {
        seq![]
    } else {
        seq![units[0]] + until_nul(units.drop_first())
    }
}

/// The name a snapshot entry gives its process.
pub open spec fn entry_name(units: Seq<u16>) -> Seq<char> {
    utf16_lossy(until_nul(units))
}

/// Whether `a` comes strictly before `b` in the lexicographic order of
/// characters (which is also the byte order of their UTF-8 encodings, the
/// order of `String`).
pub open spec fn lex_lt(a: Seq<char>, b: Seq<char>) -> bool
    decreases a.len(),
{
    if a.len() == 0 {
        b.len() > 0
    } else if b.len() == 0 {
        false
    } else if a[0] != b[0] {
        (a[0] as u32) < (b[0] as u32)
    } else {
        lex_lt(a.drop_first(), b.drop_first())
    }
}

/// The key by which processes are sorted: the name in lower case.
pub open spec fn sort_key(p: (u32, Seq<char>)) -> Seq<char> {
    lowercase(p.1)
}

/// `x` inserted into `sorted` after every element whose key does not come
/// after its own: how a stable sort places each next element.
pub open spec fn insert_stable(sorted: Seq<(u32, Seq<char>)>, x: (u32, Seq<char>)) -> Seq<(u32, Seq<char>)>
    decreases sorted.len(),
{
    if sorted.len() == 0 {
        seq![x]
    } else if !lex_lt(sort_key(x), sort_key(sorted.last())) {
        sorted.push(x)
    } else {
        insert_stable(sorted.drop_last(), x).push(sorted.last())
    }
}

/// `s` stably sorted by key: elements with equal keys keep their order.
pub open spec fn stable_sort(s: Seq<(u32, Seq<char>)>) -> Seq<(u32, Seq<char>)>
    decreases s.len(),
{
    if s.len() == 0 {
        seq![]
    } else {
        insert_stable(stable_sort(s.drop_last()), s.last())
    }
}

/// The processes a snapshot lists, in snapshot order: every entry but the
/// system idle process (id 0), named by its executable's file name.
pub open spec fn listed(entries: Seq<RawProcessEntry>) -> Seq<(u32, Seq<char>)>
    decreases entries.len(),
{
    if entries.len() == 0 {
        seq![]
    } else {
        let rest = listed(entries.drop_last());
        let e = entries.last();
        if e.pid != 0 {
            rest.push((e.pid, entry_name(e.exe_file@)))
        } else {
            rest
        }
    }
}

/// The name of a process from its snapshot entry's file-name buffer.
pub fn process_name(exe_file: &[u16]) -> (r: String)
    ensures
        r@ == entry_name(exe_file@),
{
    let len = exe_file.len();
    let mut end: usize = 0;
    while end < len && exe_file[end] != 0
        invariant
            end <= len,
            len == exe_file@.len(),
            forall|k: int| 0 <= k < end ==> exe_file@[k] != 0,
        decreases len - end,
    {
        end = end + 1;
    }
    proof {
        lemma_until_nul(exe_file@, end as int);
    }
    let part = vstd::slice::slice_subrange(exe_file, 0, end);
    from_utf16_lossy(part)
}

proof fn lemma_until_nul(units: Seq<u16>, end: int)
    requires
        0 <= end <= units.len(),
        forall|k: int| 0 <= k < end ==> units[k] != 0,
        end == units.len() || units[end] == 0,
    ensures
        until_nul(units) == units.subrange(0, end),
    decreases units.len(),
{
    if units.len() == 0 || units[0] == 0 {
        assert(end == 0);
        assert(units.subrange(0, end) =~= Seq::<u16>::empty());
    } else {
        let t = units.drop_first();
        assert forall|k: int| 0 <= k < end - 1 implies t[k] != 0 by {
            assert(t[k] == units[k + 1]);
        }
        lemma_until_nul(t, end - 1);
        assert(units.subrange(0, end) =~= seq![units[0]] + t.subrange(0, end - 1));
    }
}

/// Whether `a` comes strictly before `b` character by character.
pub fn lex_less(a: &Vec<char>, b: &Vec<char>) -> (r: bool)
    ensures
        r == lex_lt(a@, b@),
{
    let mut i: usize = 0;
    assert(a@.skip(0) =~= a@);
    assert(b@.skip(0) =~= b@);
    while i < a.len() && i < b.len() && a[i] == b[i]
        invariant
            i <= a@.len(),
            i <= b@.len(),
            a@.take(i as int) == b@.take(i as int),
            lex_lt(a@, b@) == lex_lt(a@.skip(i as int), b@.skip(i as int)),
        decreases a@.len() - i,
    {
        let ghost sa = a@.skip(i as int);
        let ghost sb = b@.skip(i as int);
        assert(sa.drop_first() =~= a@.skip(i + 1));
        assert(sb.drop_first() =~= b@.skip(i + 1));
        i = i + 1;
        assert(a@.take(i as int) =~= b@.take(i as int)) by {
            assert(a@.take(i as int) =~= a@.take(i - 1).push(a@[i - 1]));
            assert(b@.take(i as int) =~= b@.take(i - 1).push(b@[i - 1]));
        }
    }
    let ghost sa = a@.skip(i as int);
    let ghost sb = b@.skip(i as int);
    if i == a.len() {
        i < b.len()
    } else if i == b.len() {
        false
    } else {
        assert(sa[0] == a@[i as int] && sb[0] == b@[i as int]);
        (a[i] as u32) < (b[i] as u32)
    }
}

/// Turn the entries of a process snapshot into the process list: the
/// system idle process is skipped, each process is named by its
/// executable's file name, and the list is sorted by name, compared in
/// lower case, processes with equal such names keeping their snapshot order.
pub fn collect_processes(entries: &Vec<RawProcessEntry>) -> (r: Vec<ProcessInfo>)
    ensures
        r@.map_values(|p: ProcessInfo| p@) == stable_sort(listed(entries@)),
{
    let mut sorted: Vec<ProcessInfo> = Vec::new();
    let mut keys: Vec<Vec<char>> = Vec::new();
    let mut i: usize = 0;
    while i < entries.len()
        invariant
            i <= entries@.len(),
            keys@.len() == sorted@.len(),
            forall|j: int| 0 <= j < sorted@.len() ==> (#[trigger] keys@[j])@ == sort_key(sorted@[j]@),
            sorted@.map_values(|p: ProcessInfo| p@) == stable_sort(listed(entries@.take(i as int))),
        decreases entries@.len() - i,
    {
        let e = &entries[i];
        let ghost prev_listed = listed(entries@.take(i as int));
        assert(entries@.take(i + 1).drop_last() =~= entries@.take(i as int));
        assert(entries@.take(i + 1).last() == entries@[i as int]);
        proof {
            if e.pid != 0 {
                let x = (e.pid, entry_name(e.exe_file@));
                assert(listed(entries@.take(i + 1)) == prev_listed.push(x));
                assert(prev_listed.push(x).drop_last() =~= prev_listed);
                assert(stable_sort(prev_listed.push(x)) == insert_stable(stable_sort(prev_listed), x));
            } else {
                assert(listed(entries@.take(i + 1)) == prev_listed);
            }
        }
        if e.pid != 0 {
            let name = process_name(e.exe_file.as_slice());
            let key = to_lowercase_chars(name.as_str());
            let ghost x = (e.pid, name@);
            let ghost before = sorted@.map_values(|p: ProcessInfo| p@);
            // find the insertion point: after every element whose key is not greater
            let mut pos: usize = sorted.len();
            assert(before.take(pos as int) =~= before);
            assert(before.skip(pos as int) =~= Seq::<(u32, Seq<char>)>::empty());
            while pos > 0 && lex_less(&key, &keys[pos - 1])
                invariant
                    pos <= sorted@.len(),
                    keys@.len() == sorted@.len(),
                    forall|j: int| 0 <= j < sorted@.len() ==> (#[trigger] keys@[j])@ == sort_key(sorted@[j]@),
                    key@ == sort_key(x),
                    before == sorted@.map_values(|p: ProcessInfo| p@),
                    insert_stable(before, x) == insert_stable(before.take(pos as int), x) + before.skip(pos as int),
                decreases pos,
            {
                let ghost t = before.take(pos as int);
                assert(t.last() == before[pos - 1]);
                assert(t.drop_last() =~= before.take(pos - 1));
                assert(before.skip(pos - 1) =~= seq![before[pos - 1]] + before.skip(pos as int));
                pos = pos - 1;
            }
            proof {
                let t = before.take(pos as int);
                if pos > 0 {
                    assert(t.last() == before[pos - 1]);
                }
                assert(insert_stable(t, x) =~= t.push(x));
            }
            let ghost old_keys = keys@;
            let ghost old_sorted = sorted@;
            sorted.insert(pos, ProcessInfo { pid: e.pid, name });
            keys.insert(pos, key);
            assert(sorted@.map_values(|p: ProcessInfo| p@) =~= before.take(pos as int).push(x) + before.skip(pos as int));
            assert forall|j: int| 0 <= j < sorted@.len() implies (#[trigger] keys@[j])@ == sort_key(sorted@[j]@) by {
                if j < pos {
                } else if j == pos {
                } else {
                    assert(keys@[j] == old_keys[j - 1]);
                    assert(sorted@[j] == old_sorted[j - 1]);
                }
            }
        }
        i = i + 1;
    }
    assert(entries@.take(entries@.len() as int) =~= entries@);
    sorted
}

} // verus!

verus! {

broadcast use vstd::seq_lib::group_to_multiset_ensures;

/// Whether the processes in `s` are in the order of their keys.
pub open spec fn sorted_by_key(s: Seq<(u32, Seq<char>)>) -> bool {
    forall|i: int, j: int| 0 <= i < j < s.len() ==> !lex_lt(sort_key(s[j]), sort_key(s[i]))
}

proof fn lemma_lex_irreflexive(a: Seq<char>)
    ensures
        !lex_lt(a, a),
    decreases a.len(),
{
    if a.len() > 0 {
        lemma_lex_irreflexive(a.drop_first());
    }
}

proof fn lemma_lex_transitive(a: Seq<char>, b: Seq<char>, c: Seq<char>)
    requires
        lex_lt(a, b),
        lex_lt(b, c),
    ensures
        lex_lt(a, c),
    decreases a.len(),
{
    if a.len() > 0 && b.len() > 0 && c.len() > 0 && a[0] == b[0] && b[0] == c[0] {
        lemma_lex_transitive(a.drop_first(), b.drop_first(), c.drop_first());
    }
}

proof fn lemma_lex_total(a: Seq<char>, b: Seq<char>)
    requires
        !lex_lt(a, b),
        !lex_lt(b, a),
    ensures
        a == b,
    decreases a.len(),
{
    if a.len() > 0 && b.len() > 0 {
        if a[0] == b[0] {
            lemma_lex_total(a.drop_first(), b.drop_first());
            assert(a =~= seq![a[0]] + a.drop_first());
            assert(b =~= seq![b[0]] + b.drop_first());
        } else {
            vstd::utf8::char_u32_cast(a[0], a[0] as u32);
            vstd::utf8::char_u32_cast(b[0], b[0] as u32);
            assert((a[0] as u32) != (b[0] as u32));
        }
    } else {
        assert(a.len() == 0 && b.len() == 0);
        assert(a =~= b);
    }
}

/// `a` comes no later than `c` when `a` comes no later than `b` and `b`
/// no later than `c`.
proof fn lemma_lex_le_transitive(a: Seq<char>, b: Seq<char>, c: Seq<char>)
    requires
        !lex_lt(b, a),
        !lex_lt(c, b),
    ensures
        !lex_lt(c, a),
{
    if lex_lt(c, a) {
        if lex_lt(a, b) {
            lemma_lex_transitive(c, a, b);
            if lex_lt(b, c) {
                lemma_lex_transitive(b, c, b);
                lemma_lex_irreflexive(b);
            } else {
                lemma_lex_total(b, c);
            }
        } else {
            lemma_lex_total(a, b);
        }
    }
}

proof fn lemma_insert_multiset(sorted: Seq<(u32, Seq<char>)>, x: (u32, Seq<char>))
    ensures
        insert_stable(sorted, x).to_multiset() == sorted.to_multiset().insert(x),
    decreases sorted.len(),
{
    if sorted.len() > 0 && lex_lt(sort_key(x), sort_key(sorted.last())) {
        lemma_insert_multiset(sorted.drop_last(), x);
        assert(sorted.drop_last().push(sorted.last()) =~= sorted);
        assert(insert_stable(sorted, x).to_multiset() =~= sorted.to_multiset().insert(x));
    } else if sorted.len() == 0 {
        assert(seq![x] =~= Seq::<(u32, Seq<char>)>::empty().push(x));
    }
}

proof fn lemma_insert_sorted(sorted: Seq<(u32, Seq<char>)>, x: (u32, Seq<char>))
    requires
        sorted_by_key(sorted),
    ensures
        sorted_by_key(insert_stable(sorted, x)),
    decreases sorted.len(),
{
    if sorted.len() == 0 {
    } else if !lex_lt(sort_key(x), sort_key(sorted.last())) {
        let r = sorted.push(x);
        assert forall|i: int, j: int| 0 <= i < j < r.len() implies !lex_lt(sort_key(r[j]), sort_key(r[i])) by {
            if j == r.len() - 1 && i < sorted.len() - 1 {
                lemma_lex_le_transitive(sort_key(sorted[i]), sort_key(sorted.last()), sort_key(x));
            }
        }
    } else {
        let d = sorted.drop_last();
        let l = sorted.last();
        lemma_insert_sorted(d, x);
        lemma_insert_multiset(d, x);
        let m = insert_stable(d, x);
        let r = m.push(l);
        assert forall|i: int, j: int| 0 <= i < j < r.len() implies !lex_lt(sort_key(r[j]), sort_key(r[i])) by {
            if j == r.len() - 1 {
                let y = m[i];
                assert(m.to_multiset().count(y) > 0);
                assert(d.to_multiset().insert(x).count(y) > 0);
                if y == x {
                    if lex_lt(sort_key(l), sort_key(x)) {
                        lemma_lex_transitive(sort_key(x), sort_key(l), sort_key(x));
                        lemma_lex_irreflexive(sort_key(x));
                    }
                } else {
                    assert(d.to_multiset().count(y) > 0);
                    assert(d.contains(y));
                    let k = choose|k: int| 0 <= k < d.len() && d[k] == y;
                    assert(sorted[k] == y);
                }
            }
        }
    }
}

/// The process list is in the order of the lower-case names, and holds
/// exactly the listed processes: the stable sort is sorted and a
/// permutation of what it sorts.
pub proof fn lemma_stable_sort(s: Seq<(u32, Seq<char>)>)
    ensures
        sorted_by_key(stable_sort(s)),
        stable_sort(s).to_multiset() == s.to_multiset(),
    decreases s.len(),
{
    if s.len() > 0 {
        lemma_stable_sort(s.drop_last());
        lemma_insert_sorted(stable_sort(s.drop_last()), s.last());
        lemma_insert_multiset(stable_sort(s.drop_last()), s.last());
        assert(s.drop_last().push(s.last()) =~= s);
    }
}

} // verus!

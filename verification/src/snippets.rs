use vstd::prelude::*;

use crate::text::chars_of;
use crate::window_order::{chars_le, chars_le_exec, lemma_chars_le_total, lemma_chars_le_trans};

verus! {

/// `names` is in `String` order.
pub open spec fn names_sorted(names: Seq<String>) -> bool {
    forall|i: int, j: int| 0 <= i < j < names.len() ==> chars_le(#[trigger] names[i]@, #[trigger] names[j]@)
}

/// The saved snippets: each name stands for one text, and no name occurs
/// twice.
#[derive(Debug)]
pub struct SnippetStore {
    entries: Vec<(String, String)>,
}

/// Some entry of `entries` is named `name`.
pub open spec fn names_entry(entries: Seq<(String, String)>, name: Seq<char>) -> bool {
    exists|i: int| 0 <= i < entries.len() && (#[trigger] entries[i]).0@ == name
}

/// The entry named `name` (meaningful where `names_entry` holds).
pub open spec fn entry_index(entries: Seq<(String, String)>, name: Seq<char>) -> int {
    choose|i: int| 0 <= i < entries.len() && (#[trigger] entries[i]).0@ == name
}

/// No two entries share a name.
pub open spec fn names_distinct(entries: Seq<(String, String)>) -> bool {
    forall|i: int, j: int|
        0 <= i < entries.len() && 0 <= j < entries.len() && i != j ==> (#[trigger] entries[i]).0@
            != (#[trigger] entries[j]).0@
}

/// The snippets as a map from name to text.
pub open spec fn entries_map(entries: Seq<(String, String)>) -> Map<Seq<char>, Seq<char>> {
    Map::new(
        |name: Seq<char>| names_entry(entries, name),
        |name: Seq<char>| entries[entry_index(entries, name)].1@,
    )
}

impl View for SnippetStore {
    type V = Map<Seq<char>, Seq<char>>;

    closed spec fn view(&self) -> Map<Seq<char>, Seq<char>> {
        entries_map(self.entries@)
    }
}

/// In a store without repeated names, the entry with a given name is the one
/// that `entry_index` picks.
proof fn lemma_entry_index_unique(entries: Seq<(String, String)>, i: int)
    requires
        names_distinct(entries),
        0 <= i < entries.len(),
    ensures
        names_entry(entries, entries[i].0@),
        entry_index(entries, entries[i].0@) == i,
{
    let name = entries[i].0@;
    assert(names_entry(entries, name));
    let j = entry_index(entries, name);
    assert(entries[j].0@ == name);
}

/// Giving an entry a new text under the same name keeps the names apart and
/// changes the map at that name alone.
proof fn lemma_update_entry(entries: Seq<(String, String)>, i: int, e: (String, String))
    requires
        names_distinct(entries),
        0 <= i < entries.len(),
        e.0@ == entries[i].0@,
    ensures
        names_distinct(entries.update(i, e)),
        entries_map(entries.update(i, e)) == entries_map(entries).insert(e.0@, e.1@),
{
    let after = entries.update(i, e);
    assert forall|a: int| 0 <= a < after.len() implies (#[trigger] after[a]).0@ == entries[a].0@ by {}
    let old_map = entries_map(entries);
    let new_map = entries_map(after);
    let expected = old_map.insert(e.0@, e.1@);
    assert forall|k: Seq<char>| new_map.dom().contains(k) <==> expected.dom().contains(k) by {
        if names_entry(after, k) {
            let j = choose|j: int| 0 <= j < after.len() && (#[trigger] after[j]).0@ == k;
            assert(entries[j].0@ == k);
        }
        if names_entry(entries, k) {
            let j = choose|j: int| 0 <= j < entries.len() && (#[trigger] entries[j]).0@ == k;
            assert(after[j].0@ == k);
        }
        if k == e.0@ {
            assert(after[i].0@ == k);
        }
    }
    assert forall|k: Seq<char>| #[trigger] new_map.dom().contains(k) implies new_map[k] == expected[k] by {
        let j = entry_index(after, k);
        assert(after[j].0@ == k);
        lemma_entry_index_unique(after, j);
        if k == e.0@ {
            lemma_entry_index_unique(after, i);
        } else {
            assert(j != i);
            assert(after[j] == entries[j]);
            lemma_entry_index_unique(entries, j);
        }
    }
    assert(new_map =~= expected);
}

/// Adding an entry under a name not yet used keeps the names apart and adds
/// that name to the map.
proof fn lemma_push_entry(entries: Seq<(String, String)>, e: (String, String))
    requires
        names_distinct(entries),
        !names_entry(entries, e.0@),
    ensures
        names_distinct(entries.push(e)),
        entries_map(entries.push(e)) == entries_map(entries).insert(e.0@, e.1@),
{
    let after = entries.push(e);
    let n = entries.len() as int;
    assert forall|a: int, b: int|
        0 <= a < after.len() && 0 <= b < after.len() && a != b implies (#[trigger] after[a]).0@
        != (#[trigger] after[b]).0@ by {
        if a == n {
            assert(after[b] == entries[b]);
        } else if b == n {
            assert(after[a] == entries[a]);
        } else {
            assert(after[a] == entries[a]);
            assert(after[b] == entries[b]);
        }
    }
    let old_map = entries_map(entries);
    let new_map = entries_map(after);
    let expected = old_map.insert(e.0@, e.1@);
    assert forall|k: Seq<char>| new_map.dom().contains(k) <==> expected.dom().contains(k) by {
        if names_entry(after, k) && k != e.0@ {
            let j = choose|j: int| 0 <= j < after.len() && (#[trigger] after[j]).0@ == k;
            assert(j != n);
            assert(entries[j].0@ == k);
        }
        if names_entry(entries, k) {
            let j = choose|j: int| 0 <= j < entries.len() && (#[trigger] entries[j]).0@ == k;
            assert(after[j].0@ == k);
        }
        if k == e.0@ {
            assert(after[n].0@ == k);
        }
    }
    assert forall|k: Seq<char>| #[trigger] new_map.dom().contains(k) implies new_map[k] == expected[k] by {
        let j = entry_index(after, k);
        assert(after[j].0@ == k);
        lemma_entry_index_unique(after, j);
        if k == e.0@ {
            lemma_entry_index_unique(after, n);
        } else {
            assert(j != n);
            assert(after[j] == entries[j]);
            lemma_entry_index_unique(entries, j);
        }
    }
    assert(new_map =~= expected);
}

/// Dropping an entry keeps the names apart and removes its name from the map.
proof fn lemma_remove_entry(entries: Seq<(String, String)>, i: int)
    requires
        names_distinct(entries),
        0 <= i < entries.len(),
    ensures
        names_distinct(entries.remove(i)),
        entries_map(entries.remove(i)) == entries_map(entries).remove(entries[i].0@),
{
    let after = entries.remove(i);
    let gone = entries[i].0@;
    assert forall|a: int| 0 <= a < after.len() implies #[trigger] after[a] == entries[if a < i {
        a
    } else {
        a + 1
    }] by {}
    assert forall|a: int, b: int|
        0 <= a < after.len() && 0 <= b < after.len() && a != b implies (#[trigger] after[a]).0@
        != (#[trigger] after[b]).0@ by {
        let oa = if a < i { a } else { a + 1 };
        let ob = if b < i { b } else { b + 1 };
        assert(after[a] == entries[oa]);
        assert(after[b] == entries[ob]);
    }
    let old_map = entries_map(entries);
    let new_map = entries_map(after);
    let expected = old_map.remove(gone);
    assert forall|k: Seq<char>| new_map.dom().contains(k) <==> expected.dom().contains(k) by {
        if names_entry(after, k) {
            let j = choose|j: int| 0 <= j < after.len() && (#[trigger] after[j]).0@ == k;
            let oj = if j < i { j } else { j + 1 };
            assert(after[j] == entries[oj]);
            assert(entries[oj].0@ == k);
            assert(k != gone);
        }
        if names_entry(entries, k) && k != gone {
            let j = choose|j: int| 0 <= j < entries.len() && (#[trigger] entries[j]).0@ == k;
            assert(j != i);
            let aj = if j < i { j } else { j - 1 };
            assert(after[aj] == entries[j]);
            assert(after[aj].0@ == k);
        }
    }
    assert forall|k: Seq<char>| #[trigger] new_map.dom().contains(k) implies new_map[k] == expected[k] by {
        let j = entry_index(after, k);
        assert(after[j].0@ == k);
        lemma_entry_index_unique(after, j);
        let oj = if j < i { j } else { j + 1 };
        assert(after[j] == entries[oj]);
        lemma_entry_index_unique(entries, oj);
    }
    assert(new_map =~= expected);
}

impl Default for SnippetStore {
    /// A store with no snippets.
    fn default() -> (store: Self)
        ensures
            store@ == Map::<Seq<char>, Seq<char>>::empty(),
    {
        SnippetStore::new()
    }
}

impl Clone for SnippetStore {
    /// A copy holding the same snippets.
    fn clone(&self) -> (copy: Self)
        ensures
            copy@ == self@,
    {
        proof {
            use_type_invariant(self);
        }
        let mut entries: Vec<(String, String)> = Vec::new();
        let mut i: usize = 0;
        while i < self.entries.len()
            invariant
                i <= self.entries@.len(),
                entries@ == self.entries@.take(i as int),
            decreases self.entries@.len() - i,
        {
            let name = self.entries[i].0.clone();
            let text = self.entries[i].1.clone();
            entries.push((name, text));
            proof {
                assert(self.entries@.take(i + 1) == self.entries@.take(i as int).push(
                    self.entries@[i as int],
                ));
            }
            i = i + 1;
        }
        proof {
            assert(self.entries@.take(self.entries@.len() as int) == self.entries@);
        }
        SnippetStore { entries }
    }
}

impl SnippetStore {
    #[verifier::type_invariant]
    spec fn well_formed(self) -> bool {
        names_distinct(self.entries@)
    }

    /// A store with no snippets.
    pub fn new() -> (store: Self)
        ensures
            store@ == Map::<Seq<char>, Seq<char>>::empty(),
    {
        let store = SnippetStore { entries: Vec::new() };
        proof {
            assert(store@ =~= Map::<Seq<char>, Seq<char>>::empty());
        }
        store
    }

    /// Where the snippet named `name` stands, if there is one.
    fn position(&self, name: &String) -> (found: Option<usize>)
        ensures
            match found {
                Some(i) => i < self.entries@.len() && self.entries@[i as int].0@ == name@,
                None => !names_entry(self.entries@, name@),
            },
    {
        let mut i: usize = 0;
        while i < self.entries.len()
            invariant
                i <= self.entries@.len(),
                forall|m: int| 0 <= m < i ==> (#[trigger] self.entries@[m]).0@ != name@,
            decreases self.entries@.len() - i,
        {
            if self.entries[i].0 == *name {
                return Some(i);
            }
            i = i + 1;
        }
        None
    }

    /// Saves `content` under `name`, in place of any text saved there before.
    pub fn add_snippet(&mut self, name: String, content: String)
        ensures
            final(self)@ == old(self)@.insert(name@, content@),
    {
        proof {
            use_type_invariant(&*self);
        }
        match self.position(&name) {
            Some(i) => {
                proof {
                    lemma_update_entry(self.entries@, i as int, (name, content));
                }
                let mut entries: Vec<(String, String)> = Vec::new();
                std::mem::swap(&mut entries, &mut self.entries);
                entries.set(i, (name, content));
                self.entries = entries;
            },
            None => {
                proof {
                    lemma_push_entry(self.entries@, (name, content));
                }
                let mut entries: Vec<(String, String)> = Vec::new();
                std::mem::swap(&mut entries, &mut self.entries);
                entries.push((name, content));
                self.entries = entries;
            },
        }
    }

    /// Forgets the snippet named `name`, if there is one.
    pub fn remove_snippet(&mut self, name: &str)
        ensures
            final(self)@ == old(self)@.remove(name@),
    {
        proof {
            use_type_invariant(&*self);
        }
        let key = name.to_owned();
        match self.position(&key) {
            Some(i) => {
                proof {
                    lemma_remove_entry(self.entries@, i as int);
                }
                let mut entries: Vec<(String, String)> = Vec::new();
                std::mem::swap(&mut entries, &mut self.entries);
                entries.remove(i);
                self.entries = entries;
            },
            None => {
                proof {
                    assert(self@.remove(name@) =~= self@);
                }
            },
        }
    }

    /// The names of the saved snippets, each once, in `String` order.
    pub fn snippet_names(&self) -> (names: Vec<String>)
        ensures
            names_sorted(names@),
            forall|i: int, j: int|
                0 <= i < names@.len() && 0 <= j < names@.len() && i != j ==> (#[trigger] names@[i])@
                    != (#[trigger] names@[j])@,
            forall|k: Seq<char>|
                self@.dom().contains(k) <==> exists|i: int|
                    0 <= i < names@.len() && (#[trigger] names@[i])@ == k,
    {
        proof {
            use_type_invariant(self);
        }
        let ghost entries = self.entries@;
        let mut out: Vec<String> = Vec::new();
        let mut keys: Vec<Vec<char>> = Vec::new();
        let mut n: usize = 0;
        while n < self.entries.len()
            invariant
                entries == self.entries@,
                names_distinct(entries),
                n <= entries.len(),
                keys@.len() == out@.len(),
                forall|m: int| 0 <= m < keys@.len() ==> #[trigger] keys@[m]@ == out@[m]@,
                names_sorted(out@),
                forall|a: int, b: int|
                    0 <= a < out@.len() && 0 <= b < out@.len() && a != b ==> (#[trigger] out@[a])@
                        != (#[trigger] out@[b])@,
                forall|m: int|
                    0 <= m < out@.len() ==> exists|p: int|
                        0 <= p < n && (#[trigger] entries[p]).0@ == (#[trigger] out@[m])@,
                forall|p: int|
                    0 <= p < n ==> exists|m: int|
                        0 <= m < out@.len() && (#[trigger] out@[m])@ == (#[trigger] entries[p]).0@,
            decreases entries.len() - n,
        {
            let name = self.entries[n].0.clone();
            let k = chars_of(name.as_str());
            let mut j: usize = 0;
            while j < out.len() && chars_le_exec(&keys[j], &k)
                invariant
                    j <= out@.len(),
                    keys@.len() == out@.len(),
                    forall|m: int| 0 <= m < keys@.len() ==> #[trigger] keys@[m]@ == out@[m]@,
                    k@ == name@,
                    forall|m: int| 0 <= m < j ==> chars_le(#[trigger] out@[m]@, k@),
                decreases out@.len() - j,
            {
                j = j + 1;
            }
            let ghost old_out = out@;
            let ghost old_keys = keys@;
            proof {
                assert forall|m: int| j <= m < old_out.len() implies chars_le(
                    k@,
                    #[trigger] old_out[m]@,
                ) by {
                    lemma_chars_le_total(old_out[j as int]@, k@);
                    if m > j {
                        lemma_chars_le_trans(k@, old_out[j as int]@, old_out[m]@);
                    }
                }
                assert forall|m: int| 0 <= m < old_out.len() implies (#[trigger] old_out[m])@
                    != name@ by {
                    let p = choose|p: int|
                        0 <= p < n && (#[trigger] entries[p]).0@ == old_out[m]@;
                    assert(entries[n as int].0@ == name@);
                }
            }
            out.insert(j, name);
            keys.insert(j, k);
            proof {
                old_out.insert_ensures(j as int, name);
                old_keys.insert_ensures(j as int, k);
                assert forall|m: int| 0 <= m < out@.len() implies #[trigger] out@[m] == (if m < j {
                    old_out[m]
                } else if m == j {
                    name
                } else {
                    old_out[m - 1]
                }) by {}
                assert forall|m: int| 0 <= m < keys@.len() implies #[trigger] keys@[m]@
                    == out@[m]@ by {
                    if m < j {
                        assert(keys@[m] == old_keys[m]);
                    } else if m > j {
                        assert(keys@[m] == old_keys[m - 1]);
                    }
                }
                assert forall|a: int, b: int| 0 <= a < b < out@.len() implies chars_le(
                    #[trigger] out@[a]@,
                    #[trigger] out@[b]@,
                ) by {
                    let oa = if a < j { a } else { a - 1 };
                    let ob = if b < j { b } else { b - 1 };
                    if a == j {
                        assert(out@[b] == old_out[ob]);
                    } else if b == j {
                        assert(out@[a] == old_out[oa]);
                    } else {
                        assert(out@[a] == old_out[oa]);
                        assert(out@[b] == old_out[ob]);
                    }
                }
                assert forall|a: int, b: int|
                    0 <= a < out@.len() && 0 <= b < out@.len() && a != b implies (
                    #[trigger] out@[a])@ != (#[trigger] out@[b])@ by {
                    let oa = if a < j { a } else { a - 1 };
                    let ob = if b < j { b } else { b - 1 };
                    if a == j {
                        assert(out@[b] == old_out[ob]);
                    } else if b == j {
                        assert(out@[a] == old_out[oa]);
                    } else {
                        assert(out@[a] == old_out[oa]);
                        assert(out@[b] == old_out[ob]);
                    }
                }
                assert forall|m: int| 0 <= m < out@.len() implies exists|p: int|
                    0 <= p < n + 1 && (#[trigger] entries[p]).0@ == (#[trigger] out@[m])@ by {
                    if m == j {
                        assert(entries[n as int].0@ == out@[m]@);
                    } else {
                        let om = if m < j { m } else { m - 1 };
                        assert(out@[m] == old_out[om]);
                        let p = choose|p: int|
                            0 <= p < n && (#[trigger] entries[p]).0@ == old_out[om]@;
                        assert(entries[p].0@ == out@[m]@);
                    }
                }
                assert forall|p: int| 0 <= p < n + 1 implies exists|m: int|
                    0 <= m < out@.len() && (#[trigger] out@[m])@ == (#[trigger] entries[p]).0@ by {
                    if p == n {
                        assert(out@[j as int]@ == entries[p].0@);
                    } else {
                        let m = choose|m: int|
                            0 <= m < old_out.len() && (#[trigger] old_out[m])@ == entries[p].0@;
                        let nm = if m < j { m } else { m + 1 };
                        assert(out@[nm] == old_out[m]);
                    }
                }
            }
            n = n + 1;
        }
        proof {
            assert forall|k: Seq<char>| self@.dom().contains(k) <==> exists|i: int|
                0 <= i < out@.len() && (#[trigger] out@[i])@ == k by {
                if names_entry(entries, k) {
                    let p = choose|p: int| 0 <= p < entries.len() && (#[trigger] entries[p]).0@ == k;
                    let m = choose|m: int|
                        0 <= m < out@.len() && (#[trigger] out@[m])@ == entries[p].0@;
                    assert(out@[m]@ == k);
                }
                if exists|i: int| 0 <= i < out@.len() && (#[trigger] out@[i])@ == k {
                    let i = choose|i: int| 0 <= i < out@.len() && (#[trigger] out@[i])@ == k;
                    let p = choose|p: int| 0 <= p < n && (#[trigger] entries[p]).0@ == out@[i]@;
                    assert(entries[p].0@ == k);
                }
            }
        }
        out
    }

    /// The text saved under `name`, if any.
    pub fn get_snippet(&self, name: &str) -> (content: Option<&String>)
        ensures
            match content {
                Some(c) => self@.dom().contains(name@) && c@ == self@[name@],
                None => !self@.dom().contains(name@),
            },
    {
        proof {
            use_type_invariant(self);
        }
        let key = name.to_owned();
        match self.position(&key) {
            Some(i) => {
                proof {
                    lemma_entry_index_unique(self.entries@, i as int);
                }
                Some(&self.entries[i].1)
            },
            None => None,
        }
    }
}

/// A text saved under a name is the text loaded from that name afterwards;
/// saving or removing under one name leaves every other name as it was; and a
/// removed name loads nothing.
pub proof fn law_saved_snippet_loads_back(
    saved: Map<Seq<char>, Seq<char>>,
    name: Seq<char>,
    content: Seq<char>,
    other: Seq<char>,
)
    requires
        other != name,
    ensures
        saved.insert(name, content).dom().contains(name),
        saved.insert(name, content)[name] == content,
        !saved.remove(name).dom().contains(name),
        saved.insert(name, content).dom().contains(other) == saved.dom().contains(other),
        saved.remove(name).dom().contains(other) == saved.dom().contains(other),
        saved.dom().contains(other) ==> saved.insert(name, content)[other] == saved[other]
            && saved.remove(name)[other] == saved[other],
{
}

} // verus!

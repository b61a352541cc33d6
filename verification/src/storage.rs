//! Named state stores with three storage disciplines.
//!
//! A [`Storage`] is created once with a fixed [`StorageType`] and holds
//! short-lived textual facts.  Callers are expected to know a store's
//! discipline statically: invoking an operation against the wrong
//! discipline is a programming error, excluded here by precondition.
//! Every mutating operation takes `&mut self`, so one logical critical
//! section covers each read-modify-write; a caller that shares a store
//! across threads wraps it in a mutual-exclusion primitive and thereby
//! serializes racing mutations, each of which is specified below as a
//! function of the prior state.

use vstd::prelude::*;
use vstd::string::StringExecFns;

verus! {

/// One stored fact.
#[derive(Debug)]
pub struct Entry {
    pub data: String,
}

impl Entry {
    pub fn new(data: String) -> (r: Self)
        ensures
            r.data == data,
    {
        Self { data }
    }
}

/// The fixed behavioral mode of a [`Storage`], determining its valid
/// operations and its rendering.
#[derive(Debug, Clone, Copy, PartialEq, Eq, Structural)]
pub enum StorageType {
    /// A list indexed by element position.
    Untagged,
    /// A key=value store.
    Tagged,
    /// A single state with an optional previous state.
    CurrentPrevious,
}

impl StorageType {
    pub fn as_u8(&self) -> (r: u8)
        ensures
            r == match self {
                StorageType::CurrentPrevious => 0u8,
                StorageType::Untagged => 1u8,
                StorageType::Tagged => 2u8,
            },
    {
        match self {
            StorageType::CurrentPrevious => 0,
            StorageType::Untagged => 1,
            StorageType::Tagged => 2,
        }
    }
}

/// What `str::trim` leaves of a character sequence.
pub uninterp spec fn trim_of(s: Seq<char>) -> Seq<char>;

/// Relies on `str::trim`: returns the input without leading and trailing
/// whitespace; the result depends on the characters alone.
#[verifier::external_body]
fn trim_str(s: &str) -> (r: &str)
    ensures
        r@ == trim_of(s@),
{
    s.trim()
}

/// Some entry of a tagged model carries this key.
pub open spec fn has_str_key(m: Seq<(Seq<char>, Seq<char>)>, k: Seq<char>) -> bool {
    exists|j: int| 0 <= j < m.len() && m[j].0 == k
}

/// The position of the entry carrying this key (unique under [`Storage::wf`]).
pub open spec fn str_key_index(m: Seq<(Seq<char>, Seq<char>)>, k: Seq<char>) -> int {
    choose|j: int| 0 <= j < m.len() && m[j].0 == k
}

/// Some entry of a positional model carries this position tag.
pub open spec fn has_pos_key(m: Seq<(usize, Seq<char>)>, k: usize) -> bool {
    exists|j: int| 0 <= j < m.len() && m[j].0 == k
}

/// The position of the entry carrying this tag (unique under [`Storage::wf`]).
pub open spec fn pos_key_index(m: Seq<(usize, Seq<char>)>, k: usize) -> int {
    choose|j: int| 0 <= j < m.len() && m[j].0 == k
}

/// Keys of a keyed model are pairwise distinct.
pub open spec fn unique_str_keys(m: Seq<(Seq<char>, Seq<char>)>) -> bool {
    forall|i: int, j: int| #![trigger m[i], m[j]]
        0 <= i < j < m.len() ==> m[i].0 != m[j].0
}

/// One tagged mutation as the transition it performs on the keyed model:
/// `(true, k, v)` is `add_tagged(k, v)`, `(false, k, _)` is
/// `del_tagged(k)`.  The two methods ensure exactly these state changes,
/// so a lock-serialized run of calls takes the model through a fold of
/// this function over the serialization order.
pub open spec fn apply_tagged_op(
    m: Seq<(Seq<char>, Seq<char>)>,
    op: (bool, Seq<char>, Seq<char>),
) -> Seq<(Seq<char>, Seq<char>)> {
    if op.0 {
        if has_str_key(m, op.1) {
            m.update(str_key_index(m, op.1), (op.1, op.2))
        } else {
            m.push((op.1, op.2))
        }
    } else {
        if has_str_key(m, op.1) {
            m.remove(str_key_index(m, op.1))
        } else {
            m
        }
    }
}

/// The keyed model after a whole serialized sequence of tagged mutations.
pub open spec fn apply_tagged_ops(
    m: Seq<(Seq<char>, Seq<char>)>,
    ops: Seq<(bool, Seq<char>, Seq<char>)>,
) -> Seq<(Seq<char>, Seq<char>)>
    decreases ops.len(),
{
    if ops.len() == 0 {
        m
    } else {
        apply_tagged_ops(apply_tagged_op(m, ops[0]), ops.drop_first())
    }
}

/// The rendered lines of a keyed model, one `  - key: text` line per entry.
pub open spec fn render_tagged_entries(m: Seq<(Seq<char>, Seq<char>)>) -> Seq<char>
    decreases m.len(),
{
    if m.len() == 0 {
        Seq::empty()
    } else {
        render_tagged_entries(m.drop_last()) + "  - "@ + m.last().0 + ": "@ + m.last().1 + "\n"@
    }
}

/// The rendered lines of a positional model, one `  - text` line per entry.
pub open spec fn render_untagged_entries(m: Seq<(usize, Seq<char>)>) -> Seq<char>
    decreases m.len(),
{
    if m.len() == 0 {
        Seq::empty()
    } else {
        render_untagged_entries(m.drop_last()) + "  - "@ + m.last().1 + "\n"@
    }
}

/// A named, discipline-fixed container of textual facts.  Entries live in
/// insertion order, so the rendered snapshot is deterministic.
#[derive(Debug)]
pub struct Storage {
    pub name: String,
    pub type_: StorageType,
    pub list: Vec<(usize, Entry)>,
    pub map: Vec<(String, Entry)>,
    pub current: Option<Entry>,
    pub previous: Option<Entry>,
    /// The next position tag a positional store will hand out; counts up
    /// from 1 and never steps back, so removed tags are not reused.
    pub next_pos: usize,
}

impl Storage {
    /// Positional entries as (position tag, text) pairs, in insertion order.
    pub open spec fn list_model(self) -> Seq<(usize, Seq<char>)> {
        self.list@.map_values(|p: (usize, Entry)| (p.0, p.1.data@))
    }

    /// Keyed entries as (key, text) pairs, in insertion order.
    pub open spec fn map_model(self) -> Seq<(Seq<char>, Seq<char>)> {
        self.map@.map_values(|p: (String, Entry)| (p.0@, p.1.data@))
    }

    /// The current value, if one was ever set.
    pub open spec fn current_model(self) -> Option<Seq<char>> {
        match self.current {
            Some(e) => Some(e.data@),
            None => None,
        }
    }

    /// The value that was current before the last set.
    pub open spec fn previous_model(self) -> Option<Seq<char>> {
        match self.previous {
            Some(e) => Some(e.data@),
            None => None,
        }
    }

    /// Discipline-specific shape: only the matching container is populated,
    /// and its tags are unique.
    pub open spec fn wf(self) -> bool {
        match self.type_ {
            StorageType::Untagged => {
                &&& self.map@.len() == 0
                &&& self.current is None
                &&& self.previous is None
                &&& self.next_pos >= 1
                &&& forall|i: int| #![trigger self.list@[i]]
                    0 <= i < self.list@.len() ==> self.list@[i].0 < self.next_pos
                &&& forall|i: int, j: int| #![trigger self.list@[i], self.list@[j]]
                    0 <= i < j < self.list@.len() ==> self.list@[i].0 != self.list@[j].0
            },
            StorageType::Tagged => {
                &&& self.list@.len() == 0
                &&& self.current is None
                &&& self.previous is None
                &&& forall|i: int, j: int| #![trigger self.map@[i], self.map@[j]]
                    0 <= i < j < self.map@.len() ==> self.map@[i].0@ != self.map@[j].0@
            },
            StorageType::CurrentPrevious => {
                &&& self.list@.len() == 0
                &&& self.map@.len() == 0
                &&& (self.previous is Some ==> self.current is Some)
            },
        }
    }

    /// Create an empty store with a fixed discipline.
    pub fn new(name: &str, type_: StorageType) -> (r: Self)
        ensures
            r.wf(),
            r.name@ == name@,
            r.type_ == type_,
            r.list_model() == Seq::<(usize, Seq<char>)>::empty(),
            r.map_model() == Seq::<(Seq<char>, Seq<char>)>::empty(),
            r.current_model() is None,
            r.previous_model() is None,
            r.next_pos == 1,
    {
        let name = name.to_owned();
        let r = Storage {
            name,
            type_,
            list: Vec::new(),
            map: Vec::new(),
            current: None,
            previous: None,
            next_pos: 1,
        };
        proof {
            assert(r.list_model() =~= Seq::<(usize, Seq<char>)>::empty());
            assert(r.map_model() =~= Seq::<(Seq<char>, Seq<char>)>::empty());
        }
        r
    }

    /// The canonical textual snapshot of the store, by discipline: tagged
    /// and positional stores render as a `<name>...</name>` block with one
    /// line per entry (or an explicit empty marker); a current/previous
    /// store renders its trimmed current and previous values, or nothing
    /// at all if no value was ever set.
    pub open spec fn spec_render(self) -> Seq<char> {
        match self.type_ {
            StorageType::Tagged => "<"@ + self.name@ + ">\n"@
                + (if self.map_model().len() == 0 { "  no entries yet\n"@ } else {
                    render_tagged_entries(self.map_model())
                }) + "</"@ + self.name@ + ">"@,
            StorageType::Untagged => "<"@ + self.name@ + ">\n"@
                + (if self.list_model().len() == 0 { "  no entries yet\n"@ } else {
                    render_untagged_entries(self.list_model())
                }) + "</"@ + self.name@ + ">"@,
            StorageType::CurrentPrevious => match self.current_model() {
                Some(c) => {
                    let head = "* Current "@ + self.name@ + ": "@ + trim_of(c);
                    match self.previous_model() {
                        Some(p) => head + "\n* Previous "@ + self.name@ + ": "@ + trim_of(p),
                        None => head,
                    }
                },
                None => Seq::empty(),
            },
        }
    }

    /// Render the store's snapshot.  A pure read: the result is exactly
    /// [`Storage::spec_render`] of the current state.
    pub fn to_structured_string(&self) -> (r: String)
        ensures
            r@ == self.spec_render(),
    {
        match self.type_ {
            StorageType::Tagged => {
                let mut xml = String::new();
                xml.append("<");
                xml.append(self.name.as_str());
                xml.append(">\n");
                if self.map.len() == 0 {
                    xml.append("  no entries yet\n");
                } else {
                    proof {
                        assert(xml@ =~= "<"@ + self.name@ + ">\n"@
                            + render_tagged_entries(self.map_model().take(0)));
                    }
                    let n = self.map.len();
                    let mut i: usize = 0;
                    while i < n
                        invariant
                            i <= n,
                            n == self.map@.len(),
                            xml@ == "<"@ + self.name@ + ">\n"@
                                + render_tagged_entries(self.map_model().take(i as int)),
                        decreases n - i,
                    {
                        xml.append("  - ");
                        xml.append(self.map[i].0.as_str());
                        xml.append(": ");
                        xml.append(self.map[i].1.data.as_str());
                        xml.append("\n");
                        proof {
                            assert(self.map_model().take(i + 1).drop_last()
                                =~= self.map_model().take(i as int));
                            assert(self.map_model().take(i + 1).last()
                                == self.map_model()[i as int]);
                            assert(xml@ =~= "<"@ + self.name@ + ">\n"@
                                + render_tagged_entries(self.map_model().take(i + 1)));
                        }
                        i = i + 1;
                    }
                    proof {
                        assert(self.map_model().take(n as int) =~= self.map_model());
                    }
                }
                xml.append("</");
                xml.append(self.name.as_str());
                xml.append(">");
                proof {
                    assert(xml@ =~= self.spec_render());
                }
                xml
            },
            StorageType::Untagged => {
                let mut xml = String::new();
                xml.append("<");
                xml.append(self.name.as_str());
                xml.append(">\n");
                if self.list.len() == 0 {
                    xml.append("  no entries yet\n");
                } else {
                    proof {
                        assert(xml@ =~= "<"@ + self.name@ + ">\n"@
                            + render_untagged_entries(self.list_model().take(0)));
                    }
                    let n = self.list.len();
                    let mut i: usize = 0;
                    while i < n
                        invariant
                            i <= n,
                            n == self.list@.len(),
                            xml@ == "<"@ + self.name@ + ">\n"@
                                + render_untagged_entries(self.list_model().take(i as int)),
                        decreases n - i,
                    {
                        xml.append("  - ");
                        xml.append(self.list[i].1.data.as_str());
                        xml.append("\n");
                        proof {
                            assert(self.list_model().take(i + 1).drop_last()
                                =~= self.list_model().take(i as int));
                            assert(self.list_model().take(i + 1).last()
                                == self.list_model()[i as int]);
                            assert(xml@ =~= "<"@ + self.name@ + ">\n"@
                                + render_untagged_entries(self.list_model().take(i + 1)));
                        }
                        i = i + 1;
                    }
                    proof {
                        assert(self.list_model().take(n as int) =~= self.list_model());
                    }
                }
                xml.append("</");
                xml.append(self.name.as_str());
                xml.append(">");
                proof {
                    assert(xml@ =~= self.spec_render());
                }
                xml
            },
            StorageType::CurrentPrevious => {
                match &self.current {
                    Some(cur) => {
                        let mut s = String::new();
                        s.append("* Current ");
                        s.append(self.name.as_str());
                        s.append(": ");
                        s.append(trim_str(cur.data.as_str()));
                        match &self.previous {
                            Some(prev) => {
                                s.append("\n* Previous ");
                                s.append(self.name.as_str());
                                s.append(": ");
                                s.append(trim_str(prev.data.as_str()));
                            },
                            None => {},
                        }
                        proof {
                            assert(s@ =~= self.spec_render());
                        }
                        s
                    },
                    None => {
                        let s = String::new();
                        proof {
                            assert(s@ =~= self.spec_render());
                        }
                        s
                    },
                }
            },
        }
    }

    /// The store's fixed discipline.
    pub fn get_type(&self) -> (r: &StorageType)
        ensures
            *r == self.type_,
    {
        &self.type_
    }

    /// Insert or overwrite the entry at `key` (map semantics).
    pub fn add_tagged(&mut self, key: &str, data: &str)
        requires
            old(self).wf(),
            old(self).type_ is Tagged,
        ensures
            final(self).wf(),
            final(self).name == old(self).name,
            final(self).type_ == old(self).type_,
            final(self).next_pos == old(self).next_pos,
            has_str_key(old(self).map_model(), key@) ==> final(self).map_model()
                == old(self).map_model().update(
                    str_key_index(old(self).map_model(), key@), (key@, data@)),
            !has_str_key(old(self).map_model(), key@) ==> final(self).map_model()
                == old(self).map_model().push((key@, data@)),
            final(self).map_model() == apply_tagged_op(
                old(self).map_model(), (true, key@, data@)),
    {
        let k = key.to_owned();
        let d = data.to_owned();
        match map_find(&self.map, &k) {
            Some(j) => {
                self.map.set(j, (k, Entry::new(d)));
                proof {
                    let m0 = old(self).map_model();
                    assert(m0[j as int].0 == key@);
                    assert(has_str_key(m0, key@));
                    let jj = str_key_index(m0, key@);
                    assert(m0[jj].0 == key@);
                    assert(jj == j as int);
                    assert(self.map_model() =~= m0.update(j as int, (key@, data@)));
                }
            },
            None => {
                self.map.push((k, Entry::new(d)));
                proof {
                    assert(self.map_model() =~= old(self).map_model().push((key@, data@)));
                }
            },
        }
    }

    /// Delete the entry at `key` and hand back its prior text, or `None`
    /// if the key is absent.
    pub fn del_tagged(&mut self, key: &str) -> (r: Option<String>)
        requires
            old(self).wf(),
            old(self).type_ is Tagged,
        ensures
            final(self).wf(),
            final(self).name == old(self).name,
            final(self).type_ == old(self).type_,
            final(self).next_pos == old(self).next_pos,
            has_str_key(old(self).map_model(), key@) ==> {
                let j = str_key_index(old(self).map_model(), key@);
                &&& r is Some
                &&& r->Some_0@ == old(self).map_model()[j].1
                &&& final(self).map_model() == old(self).map_model().remove(j)
            },
            !has_str_key(old(self).map_model(), key@)
                ==> r is None && *final(self) == *old(self),
            final(self).map_model() == apply_tagged_op(
                old(self).map_model(), (false, key@, Seq::<char>::empty())),
    {
        let k = key.to_owned();
        match map_find(&self.map, &k) {
            Some(j) => {
                let (_, e) = self.map.remove(j);
                proof {
                    let m0 = old(self).map_model();
                    assert(m0[j as int].0 == key@);
                    assert(has_str_key(m0, key@));
                    let jj = str_key_index(m0, key@);
                    assert(m0[jj].0 == key@);
                    assert(jj == j as int);
                    assert(self.map_model() =~= m0.remove(j as int));
                }
                Some(e.data)
            },
            None => None,
        }
    }

    /// Append a new entry, tagging it with the next sequential 1-based
    /// position.  Position tags are never reused, so no surviving entry
    /// is ever overwritten; removals do not renumber, and the numbering
    /// restarts only when the store is cleared.
    pub fn add_untagged(&mut self, data: &str)
        requires
            old(self).wf(),
            old(self).type_ is Untagged,
            old(self).next_pos < usize::MAX,
        ensures
            final(self).wf(),
            final(self).name == old(self).name,
            final(self).type_ == old(self).type_,
            final(self).next_pos == old(self).next_pos + 1,
            !has_pos_key(old(self).list_model(), old(self).next_pos),
            final(self).list_model() == old(self).list_model().push(
                (old(self).next_pos, data@)),
    {
        let pos = self.next_pos;
        self.next_pos = pos + 1;
        self.list.push((pos, Entry::new(data.to_owned())));
        proof {
            assert forall|i: int| #![trigger old(self).list_model()[i]]
                0 <= i < old(self).list_model().len()
                implies old(self).list_model()[i].0 != pos by {
                assert(old(self).list@[i].0 < pos);
            }
            assert(self.list_model() =~= old(self).list_model().push((pos, data@)));
        }
    }

    /// Delete the entry tagged with `pos` and hand back its text, or
    /// `None` if the position is absent.  Remaining entries keep their
    /// tags: nothing is renumbered.
    pub fn del_untagged(&mut self, pos: usize) -> (r: Option<String>)
        requires
            old(self).wf(),
            old(self).type_ is Untagged,
        ensures
            final(self).wf(),
            final(self).name == old(self).name,
            final(self).type_ == old(self).type_,
            final(self).next_pos == old(self).next_pos,
            has_pos_key(old(self).list_model(), pos) ==> {
                let j = pos_key_index(old(self).list_model(), pos);
                &&& r is Some
                &&& r->Some_0@ == old(self).list_model()[j].1
                &&& final(self).list_model() == old(self).list_model().remove(j)
            },
            !has_pos_key(old(self).list_model(), pos)
                ==> r is None && *final(self) == *old(self),
    {
        match list_find(&self.list, pos) {
            Some(j) => {
                let (_, e) = self.list.remove(j);
                proof {
                    let m0 = old(self).list_model();
                    assert(m0[j as int].0 == pos);
                    assert(has_pos_key(m0, pos));
                    let jj = pos_key_index(m0, pos);
                    assert(m0[jj].0 == pos);
                    assert(jj == j as int);
                    assert(self.list_model() =~= m0.remove(j as int));
                }
                Some(e.data)
            },
            None => None,
        }
    }

    /// Replace the current value; whatever was current immediately before
    /// becomes "previous", discarding any older previous value (depth-1
    /// history only).
    pub fn set_current(&mut self, data: &str)
        requires
            old(self).wf(),
            old(self).type_ is CurrentPrevious,
        ensures
            final(self).wf(),
            final(self).name == old(self).name,
            final(self).type_ == old(self).type_,
            final(self).next_pos == old(self).next_pos,
            final(self).current_model() == Some(data@),
            final(self).previous_model() == if old(self).current_model() is Some {
                old(self).current_model()
            } else {
                old(self).previous_model()
            },
    {
        let old_current = self.current.take();
        self.current = Some(Entry::new(data.to_owned()));
        match old_current {
            Some(e) => {
                self.previous = Some(e);
            },
            None => {},
        }
    }

    /// Remove every entry, whatever the discipline.
    pub fn clear(&mut self)
        ensures
            final(self).wf(),
            final(self).name == old(self).name,
            final(self).type_ == old(self).type_,
            final(self).list_model() == Seq::<(usize, Seq<char>)>::empty(),
            final(self).map_model() == Seq::<(Seq<char>, Seq<char>)>::empty(),
            final(self).current_model() is None,
            final(self).previous_model() is None,
            final(self).next_pos == 1,
    {
        self.list.clear();
        self.map.clear();
        self.current = None;
        self.previous = None;
        self.next_pos = 1;
        proof {
            assert(self.list_model() =~= Seq::<(usize, Seq<char>)>::empty());
            assert(self.map_model() =~= Seq::<(Seq<char>, Seq<char>)>::empty());
        }
    }
}

/// Racing tagged mutations cannot corrupt a store: the caller's lock
/// serializes them in some order, and for fresh, distinct keys neither
/// order turns the other insertion into an overwrite, both entries land,
/// and the two serializations leave the same entries behind (order aside).
pub proof fn lemma_tagged_adds_commute(
    m: Seq<(Seq<char>, Seq<char>)>,
    k1: Seq<char>,
    v1: Seq<char>,
    k2: Seq<char>,
    v2: Seq<char>,
)
    requires
        k1 != k2,
        !has_str_key(m, k1),
        !has_str_key(m, k2),
    ensures
        !has_str_key(m.push((k1, v1)), k2),
        !has_str_key(m.push((k2, v2)), k1),
        has_str_key(m.push((k1, v1)).push((k2, v2)), k1),
        has_str_key(m.push((k1, v1)).push((k2, v2)), k2),
        m.push((k1, v1)).push((k2, v2)).to_multiset()
            == m.push((k2, v2)).push((k1, v1)).to_multiset(),
{
    broadcast use vstd::seq_lib::group_to_multiset_ensures;
    broadcast use vstd::multiset::group_multiset_axioms;

    assert forall|k: Seq<char>, p: (Seq<char>, Seq<char>)| !has_str_key(m, k) && p.0 != k
        implies !has_str_key(m.push(p), k) by {
        assert(forall|t: int| 0 <= t < m.len() ==> m.push(p)[t] == m[t]);
    }
    let left = m.push((k1, v1)).push((k2, v2));
    assert(left[m.len() as int] == (k1, v1));
    assert(left[m.len() as int + 1] == (k2, v2));
    assert(m.push((k1, v1)).push((k2, v2)).to_multiset()
        =~= m.push((k2, v2)).push((k1, v1)).to_multiset());
}

proof fn lemma_tagged_op_keeps_unique_keys(
    m: Seq<(Seq<char>, Seq<char>)>,
    op: (bool, Seq<char>, Seq<char>),
)
    requires
        unique_str_keys(m),
    ensures
        unique_str_keys(apply_tagged_op(m, op)),
{
    let m2 = apply_tagged_op(m, op);
    if op.0 && has_str_key(m, op.1) {
        let j = str_key_index(m, op.1);
        assert(0 <= j < m.len() && m[j].0 == op.1);
        assert forall|a: int, b: int| #![trigger m2[a], m2[b]]
            0 <= a < b < m2.len() implies m2[a].0 != m2[b].0 by {
            assert(m2[a] == if a == j { (op.1, op.2) } else { m[a] });
            assert(m2[b] == if b == j { (op.1, op.2) } else { m[b] });
        }
    } else if op.0 {
        assert forall|a: int, b: int| #![trigger m2[a], m2[b]]
            0 <= a < b < m2.len() implies m2[a].0 != m2[b].0 by {
            if b == m.len() {
                assert(m2[a] == m[a]);
                if m[a].0 == op.1 {
                    assert(has_str_key(m, op.1));
                }
            } else {
                assert(m2[a] == m[a] && m2[b] == m[b]);
            }
        }
    } else if has_str_key(m, op.1) {
        let j = str_key_index(m, op.1);
        assert(0 <= j < m.len());
        assert forall|a: int, b: int| #![trigger m2[a], m2[b]]
            0 <= a < b < m2.len() implies m2[a].0 != m2[b].0 by {
            let a0 = if a < j { a } else { a + 1 };
            let b0 = if b < j { b } else { b + 1 };
            assert(m2[a] == m[a0] && m2[b] == m[b0]);
            assert(0 <= a0 < b0 < m.len());
        }
    }
}

/// However a store's lock serializes any number of tagged mutations, the
/// keyed model they leave behind is the fold of the per-call transitions
/// in that order — each method's contract says so — and it is never torn:
/// unique keys survive every serialization.
pub proof fn lemma_tagged_serializations_stay_consistent(
    m: Seq<(Seq<char>, Seq<char>)>,
    ops: Seq<(bool, Seq<char>, Seq<char>)>,
)
    requires
        unique_str_keys(m),
    ensures
        unique_str_keys(apply_tagged_ops(m, ops)),
    decreases ops.len(),
{
    if ops.len() > 0 {
        lemma_tagged_op_keeps_unique_keys(m, ops[0]);
        lemma_tagged_serializations_stay_consistent(apply_tagged_op(m, ops[0]), ops.drop_first());
    }
}

/// Find the position of `key` among keyed entries.
fn map_find(m: &Vec<(String, Entry)>, key: &String) -> (r: Option<usize>)
    ensures
        match r {
            Some(j) => j < m@.len() && m@[j as int].0@ == key@,
            None => forall|i: int| 0 <= i < m@.len() ==> (#[trigger] m@[i]).0@ != key@,
        },
{
    let n = m.len();
    let mut i: usize = 0;
    while i < n
        invariant
            i <= n,
            n == m@.len(),
            forall|j: int| 0 <= j < i ==> (#[trigger] m@[j]).0@ != key@,
        decreases n - i,
    {
        if m[i].0 == *key {
            return Some(i);
        }
        i = i + 1;
    }
    None
}

/// Find the position of the entry tagged `pos` among positional entries.
fn list_find(m: &Vec<(usize, Entry)>, pos: usize) -> (r: Option<usize>)
    ensures
        match r {
            Some(j) => j < m@.len() && m@[j as int].0 == pos,
            None => forall|i: int| 0 <= i < m@.len() ==> (#[trigger] m@[i]).0 != pos,
        },
{
    let n = m.len();
    let mut i: usize = 0;
    while i < n
        invariant
            i <= n,
            n == m@.len(),
            forall|j: int| 0 <= j < i ==> (#[trigger] m@[j]).0 != pos,
        decreases n - i,
    {
        if m[i].0 == pos {
            return Some(i);
        }
        i = i + 1;
    }
    None
}

} // verus!

//! The tag registry: unique names, each resolving to one directory, kept in
//! ascending order of name.

use vstd::prelude::*;
use crate::clock::now_micros;
use crate::error::NavError;
use crate::text::{compare_text, lemma_lex_asym, lemma_lex_trans, lex_lt};
use crate::visits::{visited, VisitStore};

verus! {

/// A name pinned to a directory. `created_at` is in microseconds since the
/// Unix epoch, the time the name was created or last pointed elsewhere.
#[derive(Debug)]
pub struct TagRecord {
    pub name: String,
    pub path: String,
    pub created_at: i64,
}

/// What a `TagRecord` holds, as mathematical values.
pub struct TagEntry {
    pub name: Seq<char>,
    pub path: Seq<char>,
    pub created_at: i64,
}

impl View for TagRecord {
    type V = TagEntry;

    open spec fn view(&self) -> TagEntry {
        TagEntry { name: self.name@, path: self.path@, created_at: self.created_at }
    }
}

impl TagRecord {
    /// A copy of this record.
    pub fn copied(&self) -> (r: TagRecord)
        ensures
            r@ == self@,
    {
        TagRecord { name: self.name.clone(), path: self.path.clone(), created_at: self.created_at }
    }
}

/// The views of a sequence of records.
pub open spec fn tag_entries(s: Seq<TagRecord>) -> Seq<TagEntry> {
    s.map_values(|t: TagRecord| t@)
}

/// Names strictly ascend, so each name occurs once.
pub open spec fn names_ascending(s: Seq<TagEntry>) -> bool {
    forall|i: int, j: int| 0 <= i < j < s.len() ==> lex_lt(s[i].name, s[j].name)
}

/// `s` holds a tag called `name`.
pub open spec fn has_tag(s: Seq<TagEntry>, name: Seq<char>) -> bool {
    exists|i: int| 0 <= i < s.len() && s[i].name == name
}

/// The position of the tag called `name`, where there is one.
pub open spec fn tag_position(s: Seq<TagEntry>, name: Seq<char>) -> int {
    choose|i: int| 0 <= i < s.len() && s[i].name == name
}

/// `r` is `s` with `e` set: it replaces the tag of the same name in place,
/// or, where there is none, is inserted (at the position that keeps the
/// names ascending, where `s` and `r` are well formed).
pub open spec fn tag_set(s: Seq<TagEntry>, e: TagEntry, r: Seq<TagEntry>) -> bool {
    if has_tag(s, e.name) {
        r == s.update(tag_position(s, e.name), e)
    } else {
        exists|p: int| 0 <= p <= s.len() && r == s.insert(p, e)
    }
}

/// `r` is `s` without the tag called `name`, if it had one.
pub open spec fn tag_removed(s: Seq<TagEntry>, name: Seq<char>) -> Seq<TagEntry> {
    if has_tag(s, name) {
        s.remove(tag_position(s, name))
    } else {
        s
    }
}

/// In a well-formed registry the entry at `i` is the one found by its name.
proof fn lemma_position(s: Seq<TagEntry>, i: int)
    requires
        names_ascending(s),
        0 <= i < s.len(),
    ensures
        has_tag(s, s[i].name),
        tag_position(s, s[i].name) == i,
{
    let n = s[i].name;
    assert(s[i].name == n);
    let p = tag_position(s, n);
    lemma_lex_asym(n, n);
    if p < i {
        assert(lex_lt(s[p].name, s[i].name));
    } else if p > i {
        assert(lex_lt(s[i].name, s[p].name));
    }
}

/// The registry of tags.
pub struct TagRegistry {
    tags: Vec<TagRecord>,
}

impl View for TagRegistry {
    type V = Seq<TagEntry>;

    closed spec fn view(&self) -> Seq<TagEntry> {
        tag_entries(self.tags@)
    }
}

impl TagRegistry {
    pub open spec fn wf(&self) -> bool {
        names_ascending(self@)
    }

    /// An empty registry.
    pub fn new() -> (r: TagRegistry)
        ensures
            r.wf(),
            r@ == Seq::<TagEntry>::empty(),
    {
        let r = TagRegistry { tags: Vec::new() };
        assert(r@ =~= Seq::<TagEntry>::empty());
        r
    }

    /// Number of tags.
    pub fn len(&self) -> (r: usize)
        ensures
            r == self@.len(),
    {
        self.tags.len()
    }

    /// Position of the tag called `name`.
    fn find(&self, name: &str) -> (r: Option<usize>)
        requires
            self.wf(),
        ensures
            r is Some <==> has_tag(self@, name@),
            r matches Some(i) ==> i < self@.len() && self@[i as int].name == name@ && i
                == tag_position(self@, name@),
    {
        let key = name.to_owned();
        let mut i: usize = 0;
        while i < self.tags.len()
            invariant
                key@ == name@,
                self.wf(),
                i <= self@.len(),
                forall|j: int| 0 <= j < i ==> self@[j].name != name@,
            decreases self@.len() - i,
        {
            if self.tags[i].name == key {
                assert(self@[i as int].name == name@);
                let ghost p = tag_position(self@, name@);
                assert(0 <= p < self@.len() && self@[p].name == name@);
                assert(p == i) by {
                    if p > i {
                        assert(lex_lt(self@[i as int].name, self@[p].name));
                        lemma_lex_asym(name@, name@);
                    }
                }
                return Some(i);
            }
            i += 1;
        }
        None
    }

    /// Points the tag `name` at `path`, stamped `now`: an existing tag of
    /// that name is changed in place, otherwise a new one is added. Returns
    /// whether a tag of that name already existed.
    pub fn set_tag(&mut self, name: &str, path: &str, now: i64) -> (existed: bool)
        requires
            old(self).wf(),
        ensures
            final(self).wf(),
            existed == has_tag(old(self)@, name@),
            tag_set(old(self)@, TagEntry { name: name@, path: path@, created_at: now }, final(self)@),
            has_tag(final(self)@, name@),
            final(self)@[tag_position(final(self)@, name@)] == (TagEntry {
                name: name@,
                path: path@,
                created_at: now,
            }),
            final(self)@.len() == old(self)@.len() + (if existed {
                0int
            } else {
                1int
            }),
    {
        let ghost s = self@;
        let ghost e = TagEntry { name: name@, path: path@, created_at: now };
        let rec = TagRecord { name: name.to_owned(), path: path.to_owned(), created_at: now };
        assert(names_ascending(s));
        let mut i: usize = 0;
        while i < self.tags.len()
            invariant
                self.wf(),
                self@ == s,
                s == old(self)@,
                names_ascending(s),
                e == (TagEntry { name: name@, path: path@, created_at: now }),
                rec@ == e,
                i <= s.len(),
                forall|j: int| 0 <= j < i ==> lex_lt(s[j].name, name@),
            decreases s.len() - i,
        {
            let c = compare_text(self.tags[i].name.as_str(), name);
            if c == 0 {
                proof {
                    assert(s[i as int].name == name@);
                    let p = tag_position(s, name@);
                    assert(0 <= p < s.len() && s[p].name == name@);
                    if p < i {
                        lemma_lex_asym(name@, name@);
                    } else if p > i {
                        assert(lex_lt(s[i as int].name, s[p].name));
                        lemma_lex_asym(name@, name@);
                    }
                }
                self.tags.set(i, rec);
                assert(self@ =~= s.update(i as int, e));
                assert forall|a: int, b: int| 0 <= a < b < self@.len() implies lex_lt(
                    self@[a].name,
                    self@[b].name,
                ) by {
                    assert(lex_lt(s[a].name, s[b].name));
                    assert(self@[a].name == s[a].name);
                    assert(self@[b].name == s[b].name);
                }
                proof {
                    lemma_position(self@, i as int);
                }
                return true;
            }
            if c > 0 {
                proof {
                    assert forall|j: int| 0 <= j < s.len() implies s[j].name != name@ by {
                        lemma_lex_asym(name@, s[j].name);
                        if j > i {
                            assert(lex_lt(s[i as int].name, s[j].name));
                            lemma_lex_trans(name@, s[i as int].name, s[j].name);
                        }
                    }
                    assert(!has_tag(s, name@));
                }
                self.tags.insert(i, rec);
                assert(self@ =~= s.insert(i as int, e));
                assert forall|a: int, b: int| 0 <= a < b < self@.len() implies lex_lt(
                    self@[a].name,
                    self@[b].name,
                ) by {
                    if b < i {
                        assert(lex_lt(s[a].name, s[b].name));
                    } else if b == i {
                    } else if a < i {
                        assert(lex_lt(s[a].name, name@));
                        if b - 1 > i {
                            assert(lex_lt(s[i as int].name, s[b - 1].name));
                            lemma_lex_trans(name@, s[i as int].name, s[b - 1].name);
                        }
                        lemma_lex_trans(s[a].name, name@, s[b - 1].name);
                    } else if a == i {
                        if b - 1 > i {
                            assert(lex_lt(s[i as int].name, s[b - 1].name));
                            lemma_lex_trans(name@, s[i as int].name, s[b - 1].name);
                        }
                    } else {
                        assert(lex_lt(s[a - 1].name, s[b - 1].name));
                    }
                }
                proof {
                    lemma_position(self@, i as int);
                }
                return false;
            }
            i += 1;
        }
        proof {
            assert forall|j: int| 0 <= j < s.len() implies s[j].name != name@ by {
                lemma_lex_asym(s[j].name, name@);
            }
        }
        self.tags.push(rec);
        assert(self@ =~= s.insert(s.len() as int, e));
        assert forall|a: int, b: int| 0 <= a < b < self@.len() implies lex_lt(
            self@[a].name,
            self@[b].name,
        ) by {
            if b < s.len() {
                assert(lex_lt(s[a].name, s[b].name));
            }
        }
        proof {
            lemma_position(self@, s.len() as int);
        }
        false
    }

    /// The path that the tag `name` resolves to; `NotFound` where there is
    /// no such tag.
    pub fn resolve_tag(&self, name: &str) -> (r: Result<String, NavError>)
        requires
            self.wf(),
        ensures
            r is Ok <==> has_tag(self@, name@),
            r matches Ok(p) ==> p@ == self@[tag_position(self@, name@)].path,
            r matches Err(e) ==> e == NavError::NotFound,
    {
        match self.find(name) {
            Some(i) => Ok(self.tags[i].path.clone()),
            None => Err(NavError::NotFound),
        }
    }

    /// Deletes the tag `name`, if there is one. Returns the number of tags
    /// deleted: one, or zero where there was none, which is no error.
    pub fn remove_tag(&mut self, name: &str) -> (removed: usize)
        requires
            old(self).wf(),
        ensures
            final(self).wf(),
            removed == (if has_tag(old(self)@, name@) {
                1usize
            } else {
                0usize
            }),
            final(self)@ == tag_removed(old(self)@, name@),
    {
        let ghost s = self@;
        match self.find(name) {
            Some(i) => {
                self.tags.remove(i);
                assert(self@ =~= s.remove(i as int));
                assert forall|a: int, b: int| 0 <= a < b < self@.len() implies lex_lt(
                    self@[a].name,
                    self@[b].name,
                ) by {
                    if b < i {
                        assert(lex_lt(s[a].name, s[b].name));
                    } else if a < i {
                        assert(lex_lt(s[a].name, s[b + 1].name));
                    } else {
                        assert(lex_lt(s[a + 1].name, s[b + 1].name));
                    }
                }
                1
            },
            None => 0,
        }
    }

    /// Pins the directory `path` under the tag `name` at time `now`, and
    /// records a visit to it. `is_dir` says whether `path` is an existing
    /// directory: where it is not, the call fails with `InvalidTarget` and
    /// changes nothing. On success, returns whether the tag already existed.
    pub fn mark(
        &mut self,
        visits: &mut VisitStore,
        name: &str,
        path: &str,
        is_dir: bool,
        now: i64,
    ) -> (r: Result<bool, NavError>)
        requires
            old(self).wf(),
            old(visits).wf(),
        ensures
            final(self).wf(),
            final(visits).wf(),
            r is Ok <==> is_dir,
            !is_dir ==> r == Err::<bool, NavError>(NavError::InvalidTarget) && final(self)@ == old(
                self,
            )@ && final(visits)@ == old(visits)@,
            is_dir ==> {
                &&& r == Ok::<bool, NavError>(has_tag(old(self)@, name@))
                &&& tag_set(
                    old(self)@,
                    TagEntry { name: name@, path: path@, created_at: now },
                    final(self)@,
                )
                &&& final(visits)@ == visited(old(visits)@, path@, now)
            },
    {
        if !is_dir {
            return Err(NavError::InvalidTarget);
        }
        let existed = self.set_tag(name, path, now);
        visits.upsert_visit(path, now);
        Ok(existed)
    }

    /// `mark` at the current time.
    pub fn mark_now(&mut self, visits: &mut VisitStore, name: &str, path: &str, is_dir: bool) -> (r:
        Result<bool, NavError>)
        requires
            old(self).wf(),
            old(visits).wf(),
        ensures
            final(self).wf(),
            final(visits).wf(),
            r is Ok <==> is_dir,
            !is_dir ==> r == Err::<bool, NavError>(NavError::InvalidTarget) && final(self)@ == old(
                self,
            )@ && final(visits)@ == old(visits)@,
            is_dir ==> r == Ok::<bool, NavError>(has_tag(old(self)@, name@)) && exists|t: i64|
                tag_set(old(self)@, TagEntry { name: name@, path: path@, created_at: t }, final(self)@)
                    && final(visits)@ == visited(old(visits)@, path@, t),
    {
        let now = now_micros();
        self.mark(visits, name, path, is_dir, now)
    }

    /// A copy of the tag called `name`, where there is one.
    pub fn lookup(&self, name: &str) -> (r: Option<TagRecord>)
        requires
            self.wf(),
        ensures
            r is Some <==> has_tag(self@, name@),
            r matches Some(t) ==> t@ == self@[tag_position(self@, name@)],
    {
        match self.find(name) {
            Some(i) => Some(self.tags[i].copied()),
            None => None,
        }
    }

    /// Every tag, in ascending order of name.
    pub fn list_tags(&self) -> (r: Vec<TagRecord>)
        requires
            self.wf(),
        ensures
            tag_entries(r@) == self@,
            names_ascending(tag_entries(r@)),
    {
        let mut r: Vec<TagRecord> = Vec::new();
        let mut i: usize = 0;
        while i < self.tags.len()
            invariant
                i <= self@.len(),
                tag_entries(r@) =~= self@.take(i as int),
            decreases self@.len() - i,
        {
            let t = self.tags[i].copied();
            let ghost before = r@;
            r.push(t);
            assert(tag_entries(r@) =~= tag_entries(before).push(t@));
            i += 1;
        }
        assert(self@.take(i as int) =~= self@);
        r
    }
}

/// Pointing a name at one directory and then at another leaves exactly one
/// tag of that name, and it points at the second directory.
pub proof fn lemma_retarget(
    s: Seq<TagEntry>,
    s1: Seq<TagEntry>,
    s2: Seq<TagEntry>,
    name: Seq<char>,
    first: Seq<char>,
    second: Seq<char>,
    t1: i64,
    t2: i64,
)
    requires
        names_ascending(s),
        names_ascending(s1),
        names_ascending(s2),
        tag_set(s, TagEntry { name, path: first, created_at: t1 }, s1),
        tag_set(s1, TagEntry { name, path: second, created_at: t2 }, s2),
    ensures
        s2.len() == s1.len(),
        exists|i: int|
            0 <= i < s2.len() && s2[i] == (TagEntry { name, path: second, created_at: t2 }),
        forall|i: int, j: int|
            0 <= i < s2.len() && 0 <= j < s2.len() && s2[i].name == name && s2[j].name == name
                ==> i == j,
{
    let e1 = TagEntry { name, path: first, created_at: t1 };
    if has_tag(s, name) {
        let p = tag_position(s, name);
        assert(s1[p] == e1);
    } else {
        let p = choose|p: int| 0 <= p <= s.len() && s1 == s.insert(p, e1);
        assert(s1[p] == e1);
    }
    assert(has_tag(s1, name));
    let q = tag_position(s1, name);
    assert(s2[q] == (TagEntry { name, path: second, created_at: t2 }));
    assert forall|i: int, j: int|
        0 <= i < s2.len() && 0 <= j < s2.len() && s2[i].name == name && s2[j].name == name
        implies i == j by {
        lemma_lex_asym(name, name);
        if i < j {
            assert(lex_lt(s2[i].name, s2[j].name));
        } else if j < i {
            assert(lex_lt(s2[j].name, s2[i].name));
        }
    }
}

} // verus!

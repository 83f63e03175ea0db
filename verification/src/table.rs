//! The digest table: files grouped by content digest, with a canonical order —
//! groups ascend by digest, members ascend by path (ties broken by size) — so
//! the rendered report is the same whatever order the files were discovered in.

use vstd::prelude::*;

use crate::bytes::bytes_eq;
use crate::bytes::bytes_lt;
use crate::bytes::lemma_lex_irreflexive;
use crate::bytes::lemma_lex_transitive;
use crate::bytes::lemma_lex_trichotomy;
use crate::bytes::lex_lt;

verus! {

/// One successfully hashed file: its path and byte size.
pub struct FileEntry {
    pub path: Vec<u8>,
    pub size: u64,
}

/// Mathematical model of a `FileEntry`.
pub struct EntryModel {
    pub path: Seq<u8>,
    pub size: u64,
}

impl View for FileEntry {
    type V = EntryModel;

    open spec fn view(&self) -> EntryModel {
        EntryModel { path: self.path@, size: self.size }
    }
}

/// One group: all files whose content produced `digest`.
pub struct Group {
    pub digest: Vec<u8>,
    pub members: Vec<FileEntry>,
}

/// Mathematical model of a `Group`.
pub struct GroupModel {
    pub digest: Seq<u8>,
    pub members: Seq<EntryModel>,
}

impl View for Group {
    type V = GroupModel;

    open spec fn view(&self) -> GroupModel {
        GroupModel { digest: self.digest@, members: self.members@.map_values(|e: FileEntry| e@) }
    }
}

/// Strict canonical order on entries: by path, ties broken by size.
pub open spec fn entry_lt(a: EntryModel, b: EntryModel) -> bool {
    lex_lt(a.path, b.path) || (a.path == b.path && a.size < b.size)
}

/// Non-strict canonical order on entries.
pub open spec fn entry_le(a: EntryModel, b: EntryModel) -> bool {
    entry_lt(a, b) || a == b
}

/// Exactly one of `entry_lt(a, b)`, `a == b`, `entry_lt(b, a)` holds.
pub proof fn lemma_entry_trichotomy(a: EntryModel, b: EntryModel)
    ensures
        entry_lt(a, b) || entry_lt(b, a) || a == b,
        entry_lt(a, b) ==> !entry_lt(b, a) && a != b,
        entry_lt(b, a) ==> !entry_lt(a, b) && a != b,
{
    lemma_lex_trichotomy(a.path, b.path);
}

/// `entry_lt` is transitive.
pub proof fn lemma_entry_transitive(a: EntryModel, b: EntryModel, c: EntryModel)
    requires
        entry_lt(a, b),
        entry_lt(b, c),
    ensures
        entry_lt(a, c),
{
    if lex_lt(a.path, b.path) && lex_lt(b.path, c.path) {
        lemma_lex_transitive(a.path, b.path, c.path);
    }
}

/// A member list in canonical order (non-strict: a path may legitimately be
/// handed in twice).
pub open spec fn sorted_entries(s: Seq<EntryModel>) -> bool {
    forall|i: int, j: int| 0 <= i < j < s.len() ==> entry_le(#[trigger] s[i], #[trigger] s[j])
}

/// Insertion into a canonically ordered member list, after any equal entries.
pub open spec fn sorted_insert(s: Seq<EntryModel>, e: EntryModel) -> Seq<EntryModel>
    decreases s.len(),
{
    if s.len() == 0 {
        seq![e]
    } else if entry_lt(e, s.first()) {
        seq![e] + s
    } else {
        seq![s.first()] + sorted_insert(s.drop_first(), e)
    }
}

/// `sorted_insert` keeps the list ordered, grows it by one, and adds no entry
/// beyond `e` and those already present.
pub proof fn lemma_sorted_insert_sorted(s: Seq<EntryModel>, e: EntryModel)
    requires
        sorted_entries(s),
    ensures
        sorted_entries(sorted_insert(s, e)),
        sorted_insert(s, e).len() == s.len() + 1,
        forall|i: int|
            0 <= i < sorted_insert(s, e).len() ==> #[trigger] sorted_insert(s, e)[i] == e
                || exists|k: int| 0 <= k < s.len() && s[k] == sorted_insert(s, e)[i],
    decreases s.len(),
{
    let res = sorted_insert(s, e);
    if s.len() == 0 {
        assert(res == seq![e]);
    } else if entry_lt(e, s.first()) {
        assert forall|i: int, j: int| 0 <= i < j < res.len() implies entry_le(res[i], res[j]) by {
            if i == 0 {
                if j == 1 {
                    assert(res[j] == s[0]);
                } else {
                    assert(res[j] == s[j - 1]);
                    assert(entry_le(s[0], s[j - 1]));
                    if entry_lt(s[0], s[j - 1]) {
                        lemma_entry_transitive(e, s[0], s[j - 1]);
                    }
                }
            } else {
                assert(res[i] == s[i - 1]);
                assert(res[j] == s[j - 1]);
            }
        }
    } else {
        let tail = s.drop_first();
        assert(sorted_entries(tail)) by {
            assert forall|i: int, j: int| 0 <= i < j < tail.len() implies entry_le(
                tail[i],
                tail[j],
            ) by {
                assert(tail[i] == s[i + 1]);
                assert(tail[j] == s[j + 1]);
            }
        }
        lemma_sorted_insert_sorted(tail, e);
        let tres = sorted_insert(tail, e);
        lemma_entry_trichotomy(e, s.first());
        assert forall|i: int, j: int| 0 <= i < j < res.len() implies entry_le(res[i], res[j]) by {
            if i == 0 {
                assert(res[0] == s[0]);
                assert(res[j] == tres[j - 1]);
                if tres[j - 1] == e {
                    // e is not below the head
                } else {
                    let k = choose|k: int| 0 <= k < tail.len() && tail[k] == tres[j - 1];
                    assert(tail[k] == s[k + 1]);
                    assert(entry_le(s[0], s[k + 1]));
                }
            } else {
                assert(res[i] == tres[i - 1]);
                assert(res[j] == tres[j - 1]);
            }
        }
    }
}

/// Positional form of `sorted_insert`: when `j` is the first index whose entry
/// lies strictly above `e`, the insertion lands exactly there.
pub proof fn lemma_sorted_insert_position(s: Seq<EntryModel>, e: EntryModel, j: int)
    requires
        0 <= j <= s.len(),
        forall|k: int| 0 <= k < j ==> !entry_lt(e, #[trigger] s[k]),
        j == s.len() || entry_lt(e, s[j]),
    ensures
        sorted_insert(s, e) == s.insert(j, e),
    decreases s.len(),
{
    if s.len() == 0 {
        assert(sorted_insert(s, e) =~= s.insert(0, e));
    } else if j == 0 {
        assert(entry_lt(e, s.first()));
        assert(sorted_insert(s, e) =~= s.insert(0, e));
    } else {
        assert(!entry_lt(e, s[0]));
        let tail = s.drop_first();
        lemma_sorted_insert_position(tail, e, j - 1);
        assert(seq![s.first()] + tail.insert(j - 1, e) =~= s.insert(j, e));
    }
}

/// Well-formedness of a digest table: digests strictly ascend, every group is
/// inhabited, and every group's members are in canonical order.
pub open spec fn wf(t: Seq<GroupModel>) -> bool {
    &&& forall|i: int, j: int|
        0 <= i < j < t.len() ==> lex_lt(#[trigger] t[i].digest, #[trigger] t[j].digest)
    &&& forall|i: int| 0 <= i < t.len() ==> (#[trigger] t[i]).members.len() >= 1
    &&& forall|i: int| 0 <= i < t.len() ==> sorted_entries((#[trigger] t[i]).members)
}

/// Folding one hashed file into the table: the entry joins the group keyed by
/// its digest, and a fresh group is created at the digest's ordered position
/// when none exists.
pub open spec fn table_insert(t: Seq<GroupModel>, d: Seq<u8>, e: EntryModel) -> Seq<GroupModel>
    decreases t.len(),
{
    if t.len() == 0 {
        seq![GroupModel { digest: d, members: seq![e] }]
    } else if lex_lt(d, t.first().digest) {
        seq![GroupModel { digest: d, members: seq![e] }] + t
    } else if d == t.first().digest {
        seq![GroupModel { digest: d, members: sorted_insert(t.first().members, e) }]
            + t.drop_first()
    } else {
        seq![t.first()] + table_insert(t.drop_first(), d, e)
    }
}

/// `table_insert` preserves well-formedness, and introduces no digest beyond
/// `d` and those already present.
pub proof fn lemma_table_insert_wf(t: Seq<GroupModel>, d: Seq<u8>, e: EntryModel)
    requires
        wf(t),
    ensures
        wf(table_insert(t, d, e)),
        forall|i: int|
            0 <= i < table_insert(t, d, e).len() ==> (#[trigger] table_insert(t, d, e)[i]).digest
                == d || exists|k: int| 0 <= k < t.len() && t[k].digest == table_insert(t, d, e)[i].digest,
    decreases t.len(),
{
    let res = table_insert(t, d, e);
    if t.len() == 0 {
    } else if lex_lt(d, t.first().digest) {
        assert forall|i: int, j: int| 0 <= i < j < res.len() implies lex_lt(
            res[i].digest,
            res[j].digest,
        ) by {
            if i == 0 {
                assert(res[j] == t[j - 1]);
                if j > 1 {
                    lemma_lex_transitive(d, t[0].digest, t[j - 1].digest);
                }
            } else {
                assert(res[i] == t[i - 1]);
                assert(res[j] == t[j - 1]);
            }
        }
        assert forall|i: int| 0 <= i < res.len() implies (#[trigger] res[i]).members.len() >= 1
            && sorted_entries(res[i].members) by {
            if i > 0 {
                assert(res[i] == t[i - 1]);
            }
        }
    } else if d == t.first().digest {
        lemma_sorted_insert_sorted(t.first().members, e);
        assert forall|i: int, j: int| 0 <= i < j < res.len() implies lex_lt(
            res[i].digest,
            res[j].digest,
        ) by {
            assert(res[j] == t[j]);
            if i > 0 {
                assert(res[i] == t[i]);
            }
        }
        assert forall|i: int| 0 <= i < res.len() implies (#[trigger] res[i]).members.len() >= 1
            && sorted_entries(res[i].members) by {
            if i > 0 {
                assert(res[i] == t[i]);
            }
        }
    } else {
        let tail = t.drop_first();
        assert(wf(tail)) by {
            assert forall|i: int, j: int| 0 <= i < j < tail.len() implies lex_lt(
                (#[trigger] tail[i]).digest,
                (#[trigger] tail[j]).digest,
            ) by {
                assert(tail[i] == t[i + 1]);
                assert(tail[j] == t[j + 1]);
            }
            assert forall|i: int| 0 <= i < tail.len() implies (#[trigger] tail[i]).members.len()
                >= 1 && sorted_entries(tail[i].members) by {
                assert(tail[i] == t[i + 1]);
            }
        }
        lemma_table_insert_wf(tail, d, e);
        let tres = table_insert(tail, d, e);
        lemma_lex_trichotomy(d, t.first().digest);
        assert(lex_lt(t.first().digest, d));
        assert forall|i: int, j: int| 0 <= i < j < res.len() implies lex_lt(
            res[i].digest,
            res[j].digest,
        ) by {
            if i == 0 {
                assert(res[j] == tres[j - 1]);
                if tres[j - 1].digest == d {
                } else {
                    let k = choose|k: int|
                        0 <= k < tail.len() && tail[k].digest == tres[j - 1].digest;
                    assert(tail[k] == t[k + 1]);
                    assert(lex_lt(t[0].digest, t[k + 1].digest));
                }
            } else {
                assert(res[i] == tres[i - 1]);
                assert(res[j] == tres[j - 1]);
            }
        }
        assert forall|i: int| 0 <= i < res.len() implies (#[trigger] res[i]).members.len() >= 1
            && sorted_entries(res[i].members) by {
            if i > 0 {
                assert(res[i] == tres[i - 1]);
            }
        }
        assert forall|i: int| 0 <= i < res.len() implies (#[trigger] res[i]).digest == d
            || exists|k: int| 0 <= k < t.len() && t[k].digest == res[i].digest by {
            if i > 0 && res[i].digest != d {
                assert(res[i] == tres[i - 1]);
                let k = choose|k: int| 0 <= k < tail.len() && tail[k].digest == tres[i - 1].digest;
                assert(tail[k] == t[k + 1]);
            }
        }
    }
}

/// Positional form of `table_insert`: when `i` is the first index whose digest
/// is not below `d`, the insertion merges there or lands there.
pub proof fn lemma_table_insert_position(t: Seq<GroupModel>, d: Seq<u8>, e: EntryModel, i: int)
    requires
        0 <= i <= t.len(),
        forall|k: int| 0 <= k < i ==> lex_lt((#[trigger] t[k]).digest, d),
        i == t.len() || !lex_lt(t[i].digest, d),
    ensures
        i < t.len() && t[i].digest == d ==> table_insert(t, d, e) == t.update(
            i,
            GroupModel { digest: d, members: sorted_insert(t[i].members, e) },
        ),
        !(i < t.len() && t[i].digest == d) ==> table_insert(t, d, e) == t.insert(
            i,
            GroupModel { digest: d, members: seq![e] },
        ),
    decreases t.len(),
{
    if t.len() == 0 {
        assert(table_insert(t, d, e) =~= t.insert(0, GroupModel { digest: d, members: seq![e] }));
    } else if i == 0 {
        lemma_lex_trichotomy(d, t.first().digest);
        if t[0].digest == d {
            assert(table_insert(t, d, e) =~= t.update(
                0,
                GroupModel { digest: d, members: sorted_insert(t[0].members, e) },
            ));
        } else {
            assert(lex_lt(d, t.first().digest));
            assert(table_insert(t, d, e) =~= t.insert(
                0,
                GroupModel { digest: d, members: seq![e] },
            ));
        }
    } else {
        assert(lex_lt(t[0].digest, d));
        lemma_lex_trichotomy(d, t.first().digest);
        let tail = t.drop_first();
        assert(forall|k: int| 0 <= k < i - 1 ==> lex_lt((#[trigger] tail[k]).digest, d));
        lemma_table_insert_position(tail, d, e, i - 1);
        if i < t.len() && t[i].digest == d {
            assert(tail[i - 1] == t[i]);
            assert(seq![t.first()] + tail.update(
                i - 1,
                GroupModel { digest: d, members: sorted_insert(tail[i - 1].members, e) },
            ) =~= t.update(i, GroupModel { digest: d, members: sorted_insert(t[i].members, e) }));
        } else {
            assert(seq![t.first()] + tail.insert(i - 1, GroupModel { digest: d, members: seq![e] })
                =~= t.insert(i, GroupModel { digest: d, members: seq![e] }));
        }
    }
}

/// Decides `entry_lt`.
pub fn entry_before(a: &FileEntry, b: &FileEntry) -> (r: bool)
    ensures
        r == entry_lt(a@, b@),
{
    if bytes_lt(a.path.as_slice(), b.path.as_slice()) {
        true
    } else if bytes_eq(a.path.as_slice(), b.path.as_slice()) {
        a.size < b.size
    } else {
        false
    }
}

/// First index whose digest is not below `digest`.
fn find_group_slot(groups: &Vec<Group>, digest: &[u8]) -> (i: usize)
    ensures
        0 <= i <= groups@.len(),
        forall|k: int| 0 <= k < i ==> lex_lt((#[trigger] groups@[k])@.digest, digest@),
        i < groups@.len() ==> !lex_lt(groups@[i as int]@.digest, digest@),
{
    let n = groups.len();
    let mut i: usize = 0;
    while i < n
        invariant
            0 <= i <= n,
            n == groups@.len(),
            forall|k: int| 0 <= k < i ==> lex_lt((#[trigger] groups@[k])@.digest, digest@),
        decreases n - i,
    {
        if !bytes_lt(groups[i].digest.as_slice(), digest) {
            return i;
        }
        i = i + 1;
    }
    i
}

/// First index whose member lies strictly above `entry`.
fn find_member_slot(members: &Vec<FileEntry>, entry: &FileEntry) -> (j: usize)
    ensures
        0 <= j <= members@.len(),
        forall|k: int| 0 <= k < j ==> !entry_lt(entry@, (#[trigger] members@[k])@),
        j < members@.len() ==> entry_lt(entry@, members@[j as int]@),
{
    let n = members.len();
    let mut j: usize = 0;
    while j < n
        invariant
            0 <= j <= n,
            n == members@.len(),
            forall|k: int| 0 <= k < j ==> !entry_lt(entry@, (#[trigger] members@[k])@),
        decreases n - j,
    {
        if entry_before(entry, &members[j]) {
            return j;
        }
        j = j + 1;
    }
    j
}

/// The table of digest groups, kept well-formed at all times.
pub struct DigestTable {
    groups: Vec<Group>,
}

impl View for DigestTable {
    type V = Seq<GroupModel>;

    closed spec fn view(&self) -> Seq<GroupModel> {
        self.groups@.map_values(|g: Group| g@)
    }
}

impl DigestTable {
    /// An empty table.
    pub fn new() -> (t: Self)
        ensures
            t@ == Seq::<GroupModel>::empty(),
            wf(t@),
    {
        let t = DigestTable { groups: Vec::new() };
        proof {
            assert(t@ =~= Seq::<GroupModel>::empty());
        }
        t
    }

    /// The groups, for iteration by index.
    pub fn groups(&self) -> (r: &Vec<Group>)
        ensures
            r@.map_values(|g: Group| g@) == self@,
    {
        &self.groups
    }

    /// Folds one hashed file into the table, re-establishing canonical order.
    pub fn insert(&mut self, digest: Vec<u8>, path: Vec<u8>, size: u64)
        requires
            wf(old(self)@),
        ensures
            final(self)@ == table_insert(
                old(self)@,
                digest@,
                EntryModel { path: path@, size: size },
            ),
            wf(final(self)@),
    {
        let ghost t0 = old(self)@;
        let ghost e = EntryModel { path: path@, size: size };
        let entry = FileEntry { path, size };
        let i = find_group_slot(&self.groups, digest.as_slice());
        proof {
            lemma_table_insert_wf(t0, digest@, e);
        }
        if i < self.groups.len() && bytes_eq(self.groups[i].digest.as_slice(), digest.as_slice()) {
            let ghost old_members = t0[i as int].members;
            let mut g = self.groups.remove(i);
            let j = find_member_slot(&g.members, &entry);
            proof {
                lemma_sorted_insert_position(old_members, e, j as int);
            }
            g.members.insert(j, entry);
            proof {
                assert(g@.members =~= sorted_insert(old_members, e));
            }
            self.groups.insert(i, g);
            proof {
                lemma_table_insert_position(t0, digest@, e, i as int);
                assert(self@ =~= t0.update(
                    i as int,
                    GroupModel { digest: digest@, members: sorted_insert(old_members, e) },
                ));
            }
        } else {
            let mut members: Vec<FileEntry> = Vec::new();
            members.push(entry);
            let g = Group { digest, members };
            proof {
                assert(g@.members =~= seq![e]);
            }
            self.groups.insert(i, g);
            proof {
                lemma_table_insert_position(t0, digest@, e, i as int);
                assert(self@ =~= t0.insert(
                    i as int,
                    GroupModel { digest: digest@, members: seq![e] },
                ));
            }
        }
    }
}

/// The per-file outcome of the hashing stage: either the file was stat-able and
/// fully readable, yielding its path, size and digest, or it was not, in which
/// case it contributes nothing downstream.
pub struct HashedFile {
    pub path: Vec<u8>,
    pub size: u64,
    pub digest: Vec<u8>,
}

/// Mathematical model of a `HashedFile`.
pub struct HashedModel {
    pub path: Seq<u8>,
    pub size: u64,
    pub digest: Seq<u8>,
}

impl View for HashedFile {
    type V = HashedModel;

    open spec fn view(&self) -> HashedModel {
        HashedModel { path: self.path@, size: self.size, digest: self.digest@ }
    }
}

pub enum FileOutcome {
    Hashed(HashedFile),
    Unreadable,
}

/// Mathematical model of a `FileOutcome`.
pub enum OutcomeModel {
    Hashed(HashedModel),
    Unreadable,
}

impl View for FileOutcome {
    type V = OutcomeModel;

    open spec fn view(&self) -> OutcomeModel {
        match self {
            FileOutcome::Hashed(h) => OutcomeModel::Hashed(h@),
            FileOutcome::Unreadable => OutcomeModel::Unreadable,
        }
    }
}

/// The entry a hashed file contributes to its group.
pub open spec fn outcome_entry(h: HashedModel) -> EntryModel {
    EntryModel { path: h.path, size: h.size }
}

/// The table obtained by folding the outcomes in order: each hashed file joins
/// the group of its digest, each unreadable file is passed over.
pub open spec fn build_outcomes(outs: Seq<OutcomeModel>) -> Seq<GroupModel>
    decreases outs.len(),
{
    if outs.len() == 0 {
        Seq::empty()
    } else {
        let rest = build_outcomes(outs.drop_last());
        match outs.last() {
            OutcomeModel::Hashed(h) => table_insert(rest, h.digest, outcome_entry(h)),
            OutcomeModel::Unreadable => rest,
        }
    }
}

/// The folded table is always well-formed.
pub proof fn lemma_build_outcomes_wf(outs: Seq<OutcomeModel>)
    ensures
        wf(build_outcomes(outs)),
    decreases outs.len(),
{
    if outs.len() > 0 {
        lemma_build_outcomes_wf(outs.drop_last());
        match outs.last() {
            OutcomeModel::Hashed(h) => {
                lemma_table_insert_wf(build_outcomes(outs.drop_last()), h.digest, outcome_entry(h));
            },
            OutcomeModel::Unreadable => {},
        }
    }
}

/// Folds a whole run's outcomes into a table.
pub fn build_table(outcomes: Vec<FileOutcome>) -> (t: DigestTable)
    ensures
        t@ == build_outcomes(outcomes@.map_values(|o: FileOutcome| o@)),
        wf(t@),
{
    let ghost all = outcomes@.map_values(|o: FileOutcome| o@);
    let mut rem = outcomes;
    let mut t = DigestTable::new();
    proof {
        assert(all.take(0) =~= Seq::<OutcomeModel>::empty());
        assert(rem@.map_values(|o: FileOutcome| o@) =~= all.skip(0));
    }
    while rem.len() > 0
        invariant
            rem@.len() <= all.len(),
            wf(t@),
            t@ == build_outcomes(all.take(all.len() - rem@.len())),
            rem@.map_values(|o: FileOutcome| o@) == all.skip(all.len() - rem@.len()),
        decreases rem@.len(),
    {
        let ghost i = all.len() - rem@.len();
        let ghost rem0 = rem@;
        let oc = rem.remove(0);
        proof {
            assert(oc@ == rem0.map_values(|o: FileOutcome| o@)[0]);
            assert(oc@ == all[i]);
            assert forall|k: int|
                0 <= k < rem@.len() implies rem@.map_values(|o: FileOutcome| o@)[k] == #[trigger] (
            all.skip(i + 1)[k]) by {
                assert(rem@[k] == rem0[k + 1]);
                assert(rem0.map_values(|o: FileOutcome| o@)[k + 1] == rem0[k + 1]@);
                assert(all.skip(i)[k + 1] == all[i + 1 + k]);
            }
            assert(rem@.map_values(|o: FileOutcome| o@) =~= all.skip(i + 1));
            assert(all.take(i + 1).drop_last() =~= all.take(i));
            assert(all.take(i + 1).last() == all[i]);
        }
        match oc {
            FileOutcome::Hashed(h) => {
                let ghost hm = h@;
                t.insert(h.digest, h.path, h.size);
                proof {
                    assert(EntryModel { path: hm.path, size: hm.size } == outcome_entry(hm));
                    assert(t@ == build_outcomes(all.take(i + 1)));
                }
            },
            FileOutcome::Unreadable => {
                proof {
                    assert(t@ == build_outcomes(all.take(i + 1)));
                }
            },
        }
    }
    proof {
        assert(all.take(all.len() as int) =~= all);
    }
    t
}

/// The inserted entry is present in the group keyed by its digest.
pub proof fn lemma_sorted_insert_contains(s: Seq<EntryModel>, e: EntryModel)
    ensures
        sorted_insert(s, e).contains(e),
    decreases s.len(),
{
    let res = sorted_insert(s, e);
    if s.len() == 0 {
        assert(res[0] == e);
    } else if entry_lt(e, s.first()) {
        assert(res[0] == e);
    } else {
        lemma_sorted_insert_contains(s.drop_first(), e);
        let tres = sorted_insert(s.drop_first(), e);
        let k = choose|k: int| 0 <= k < tres.len() && tres[k] == e;
        assert(res[k + 1] == e);
    }
}

/// After a fold step, the hashed file's entry stands in some group whose key is
/// its digest.
pub proof fn lemma_table_insert_member(t: Seq<GroupModel>, d: Seq<u8>, e: EntryModel)
    ensures
        exists|i: int|
            0 <= i < table_insert(t, d, e).len() && (#[trigger] table_insert(t, d, e)[i]).digest
                == d && table_insert(t, d, e)[i].members.contains(e),
    decreases t.len(),
{
    let res = table_insert(t, d, e);
    if t.len() == 0 {
        assert(res[0].members[0] == e);
        assert(res[0].digest == d && res[0].members.contains(e));
    } else if lex_lt(d, t.first().digest) {
        assert(res[0].members[0] == e);
        assert(res[0].digest == d && res[0].members.contains(e));
    } else if d == t.first().digest {
        lemma_sorted_insert_contains(t.first().members, e);
        assert(res[0].digest == d && res[0].members.contains(e));
    } else {
        lemma_table_insert_member(t.drop_first(), d, e);
        let tres = table_insert(t.drop_first(), d, e);
        let i = choose|i: int|
            0 <= i < tres.len() && (#[trigger] tres[i]).digest == d && tres[i].members.contains(e);
        assert(res[i + 1] == tres[i]);
        assert(res[i + 1].digest == d && res[i + 1].members.contains(e));
    }
}

/// Member insertion loses no member already present.
pub proof fn lemma_sorted_insert_preserves(s: Seq<EntryModel>, e: EntryModel, e0: EntryModel)
    requires
        s.contains(e0),
    ensures
        sorted_insert(s, e).contains(e0),
    decreases s.len(),
{
    let res = sorted_insert(s, e);
    let k = choose|k: int| 0 <= k < s.len() && s[k] == e0;
    if entry_lt(e, s.first()) {
        assert(res[k + 1] == e0);
    } else if k == 0 {
        assert(res[0] == e0);
    } else {
        let tail = s.drop_first();
        assert(tail[k - 1] == e0);
        lemma_sorted_insert_preserves(tail, e, e0);
        let tres = sorted_insert(tail, e);
        let k2 = choose|k2: int| 0 <= k2 < tres.len() && tres[k2] == e0;
        assert(res[k2 + 1] == e0);
    }
}

/// A fold step loses no grouped file: a member of a group survives under the
/// group's digest.
pub proof fn lemma_table_insert_preserves(
    t: Seq<GroupModel>,
    d: Seq<u8>,
    e: EntryModel,
    i: int,
    e0: EntryModel,
)
    requires
        0 <= i < t.len(),
        t[i].members.contains(e0),
    ensures
        exists|j: int|
            0 <= j < table_insert(t, d, e).len() && (#[trigger] table_insert(t, d, e)[j]).digest
                == t[i].digest && table_insert(t, d, e)[j].members.contains(e0),
    decreases t.len(),
{
    let res = table_insert(t, d, e);
    if lex_lt(d, t.first().digest) {
        assert(res[i + 1] == t[i]);
        assert(res[i + 1].digest == t[i].digest && res[i + 1].members.contains(e0));
    } else if d == t.first().digest {
        if i == 0 {
            lemma_sorted_insert_preserves(t.first().members, e, e0);
            assert(res[0].digest == t[0].digest && res[0].members.contains(e0));
        } else {
            assert(res[i] == t[i]);
            assert(res[i].digest == t[i].digest && res[i].members.contains(e0));
        }
    } else {
        if i == 0 {
            assert(res[0] == t[0]);
            assert(res[0].digest == t[0].digest && res[0].members.contains(e0));
        } else {
            let tail = t.drop_first();
            assert(tail[i - 1] == t[i]);
            lemma_table_insert_preserves(tail, d, e, i - 1, e0);
            let tres = table_insert(tail, d, e);
            let j = choose|j: int|
                0 <= j < tres.len() && (#[trigger] tres[j]).digest == tail[i - 1].digest
                    && tres[j].members.contains(e0);
            assert(res[j + 1] == tres[j]);
            assert(res[j + 1].digest == t[i].digest && res[j + 1].members.contains(e0));
        }
    }
}

/// Completeness half of the equivalence law: every file hashed during the run
/// stands, at the end of the fold, in a group keyed by its digest.
pub proof fn lemma_every_hashed_file_grouped(outs: Seq<OutcomeModel>, k: int, h: HashedModel)
    requires
        0 <= k < outs.len(),
        outs[k] == OutcomeModel::Hashed(h),
    ensures
        exists|j: int|
            0 <= j < build_outcomes(outs).len() && (#[trigger] build_outcomes(outs)[j]).digest
                == h.digest && build_outcomes(outs)[j].members.contains(outcome_entry(h)),
    decreases outs.len(),
{
    let res = build_outcomes(outs);
    let dl = outs.drop_last();
    if k == outs.len() - 1 {
        lemma_table_insert_member(build_outcomes(dl), h.digest, outcome_entry(h));
    } else {
        assert(dl[k] == outs[k]);
        lemma_every_hashed_file_grouped(dl, k, h);
        let prev = build_outcomes(dl);
        let i = choose|i: int|
            0 <= i < prev.len() && (#[trigger] prev[i]).digest == h.digest
                && prev[i].members.contains(outcome_entry(h));
        match outs.last() {
            OutcomeModel::Hashed(h2) => {
                lemma_table_insert_preserves(
                    prev,
                    h2.digest,
                    outcome_entry(h2),
                    i,
                    outcome_entry(h),
                );
            },
            OutcomeModel::Unreadable => {},
        }
    }
}

/// Equivalence law: two files whose contents are byte-identical receive the same
/// digest, and a well-formed table holds at most one group per digest, so both
/// files stand together in exactly one group.
pub proof fn lemma_equal_content_one_group(
    t: Seq<GroupModel>,
    c1: Seq<u8>,
    c2: Seq<u8>,
    i: int,
    j: int,
)
    requires
        wf(t),
        c1 == c2,
        0 <= i < t.len(),
        0 <= j < t.len(),
        t[i].digest == crate::digest::md5_of(c1),
        t[j].digest == crate::digest::md5_of(c2),
    ensures
        i == j,
{
    if i != j {
        lemma_lex_irreflexive(t[i].digest);
    }
}

/// Separation law: two files whose contents hash to different digests never
/// stand in the same group. (Contents that collide under the digest are the
/// accepted exception: grouping is by digest alone.)
pub proof fn lemma_distinct_digests_separate(
    t: Seq<GroupModel>,
    c1: Seq<u8>,
    c2: Seq<u8>,
    i: int,
    j: int,
)
    requires
        crate::digest::md5_of(c1) != crate::digest::md5_of(c2),
        0 <= i < t.len(),
        0 <= j < t.len(),
        t[i].digest == crate::digest::md5_of(c1),
        t[j].digest == crate::digest::md5_of(c2),
    ensures
        i != j,
{
}

/// Exclusion law: a file that could not be read contributes nothing — dropping
/// its outcome from the run leaves the folded table unchanged.
pub proof fn lemma_unreadable_excluded(outs: Seq<OutcomeModel>, k: int)
    requires
        0 <= k < outs.len(),
        outs[k] is Unreadable,
    ensures
        build_outcomes(outs) == build_outcomes(outs.remove(k)),
    decreases outs.len(),
{
    if k == outs.len() - 1 {
        assert(outs.remove(k) =~= outs.drop_last());
    } else {
        assert(outs.remove(k).last() == outs.last());
        assert(outs.remove(k).drop_last() =~= outs.drop_last().remove(k));
        lemma_unreadable_excluded(outs.drop_last(), k);
    }
}

/// Two member insertions commute.
pub proof fn lemma_sorted_insert_commutes(s: Seq<EntryModel>, a: EntryModel, b: EntryModel)
    ensures
        sorted_insert(sorted_insert(s, a), b) == sorted_insert(sorted_insert(s, b), a),
    decreases s.len(),
{
    lemma_entry_trichotomy(a, b);
    let sa = sorted_insert(s, a);
    let sb = sorted_insert(s, b);
    if s.len() == 0 {
        assert(sa == seq![a]);
        assert(sb == seq![b]);
        assert(seq![a].first() == a && seq![b].first() == b);
        assert(seq![a].drop_first() =~= Seq::<EntryModel>::empty());
        assert(seq![b].drop_first() =~= Seq::<EntryModel>::empty());
        assert(sorted_insert(Seq::<EntryModel>::empty(), a) == seq![a]);
        assert(sorted_insert(Seq::<EntryModel>::empty(), b) == seq![b]);
        if entry_lt(b, a) {
            assert(sorted_insert(sa, b) =~= seq![b, a]);
            assert(sorted_insert(sb, a) =~= seq![b, a]);
        } else if entry_lt(a, b) {
            assert(sorted_insert(sa, b) =~= seq![a, b]);
            assert(sorted_insert(sb, a) =~= seq![a, b]);
        } else {
            assert(sorted_insert(sa, b) =~= seq![a, b]);
            assert(sorted_insert(sb, a) =~= seq![b, a]);
            assert(seq![a, b] =~= seq![b, a]);
        }
    } else {
        let h = s.first();
        let tail = s.drop_first();
        lemma_entry_trichotomy(a, h);
        lemma_entry_trichotomy(b, h);
        if entry_lt(a, h) && entry_lt(b, h) {
            assert(sa == seq![a] + s);
            assert(sb == seq![b] + s);
            assert((seq![a] + s).first() == a && (seq![b] + s).first() == b);
            assert((seq![a] + s).drop_first() =~= s);
            assert((seq![b] + s).drop_first() =~= s);
            if entry_lt(b, a) {
                assert(sorted_insert(sa, b) == seq![b] + sa);
                assert(sorted_insert(sb, a) == seq![b] + sorted_insert(s, a));
                assert(seq![b] + sa =~= seq![b] + (seq![a] + s));
                assert(seq![b] + sorted_insert(s, a) =~= seq![b] + (seq![a] + s));
            } else if entry_lt(a, b) {
                assert(sorted_insert(sa, b) == seq![a] + sorted_insert(s, b));
                assert(sorted_insert(sb, a) == seq![a] + sb);
                assert(seq![a] + sorted_insert(s, b) =~= seq![a] + (seq![b] + s));
                assert(seq![a] + sb =~= seq![a] + (seq![b] + s));
            } else {
                assert(sorted_insert(sa, b) == seq![a] + sorted_insert(s, b));
                assert(sorted_insert(sb, a) == seq![b] + sorted_insert(s, a));
                assert(seq![a] + (seq![b] + s) =~= seq![b] + (seq![a] + s));
            }
        } else if entry_lt(a, h) && !entry_lt(b, h) {
            if entry_lt(b, a) {
                lemma_entry_transitive(b, a, h);
            }
            assert(!entry_lt(b, a));
            assert(sa == seq![a] + s);
            assert(sb == seq![h] + sorted_insert(tail, b));
            assert((seq![a] + s).first() == a);
            assert((seq![a] + s).drop_first() =~= s);
            assert(sorted_insert(sa, b) == seq![a] + sorted_insert(s, b));
            assert((seq![h] + sorted_insert(tail, b)).first() == h);
            assert(sorted_insert(sb, a) == seq![a] + sb);
        } else if !entry_lt(a, h) && entry_lt(b, h) {
            if entry_lt(a, b) {
                lemma_entry_transitive(a, b, h);
            }
            assert(!entry_lt(a, b));
            assert(sb == seq![b] + s);
            assert(sa == seq![h] + sorted_insert(tail, a));
            assert((seq![b] + s).first() == b);
            assert((seq![b] + s).drop_first() =~= s);
            assert(sorted_insert(sb, a) == seq![b] + sorted_insert(s, a));
            assert((seq![h] + sorted_insert(tail, a)).first() == h);
            assert(sorted_insert(sa, b) == seq![b] + sa);
        } else {
            lemma_sorted_insert_commutes(tail, a, b);
            assert(sa == seq![h] + sorted_insert(tail, a));
            assert(sb == seq![h] + sorted_insert(tail, b));
            assert(sa.first() == h && sb.first() == h);
            assert(sa.drop_first() =~= sorted_insert(tail, a));
            assert(sb.drop_first() =~= sorted_insert(tail, b));
            assert(sorted_insert(sa, b) == seq![h] + sorted_insert(sorted_insert(tail, a), b));
            assert(sorted_insert(sb, a) == seq![h] + sorted_insert(sorted_insert(tail, b), a));
        }
    }
}

/// Determinism law: folding two hashed files into the table in either order
/// yields the same table, so the final table — and with it the rendered report,
/// its group order and its intra-group order — does not depend on the order in
/// which the traversal discovered the files.
pub proof fn lemma_table_insert_commutes(
    t: Seq<GroupModel>,
    d1: Seq<u8>,
    e1: EntryModel,
    d2: Seq<u8>,
    e2: EntryModel,
)
    ensures
        table_insert(table_insert(t, d1, e1), d2, e2) == table_insert(
            table_insert(t, d2, e2),
            d1,
            e1,
        ),
    decreases t.len(),
{
    lemma_lex_trichotomy(d1, d2);
    let t1 = table_insert(t, d1, e1);
    let t2 = table_insert(t, d2, e2);
    let g1 = GroupModel { digest: d1, members: seq![e1] };
    let g2 = GroupModel { digest: d2, members: seq![e2] };
    if t.len() == 0 {
        assert(t1 == seq![g1]);
        assert(t2 == seq![g2]);
        assert(seq![g1].first() == g1 && seq![g2].first() == g2);
        assert(seq![g1].drop_first() =~= Seq::<GroupModel>::empty());
        assert(seq![g2].drop_first() =~= Seq::<GroupModel>::empty());
        assert(table_insert(Seq::<GroupModel>::empty(), d1, e1) == seq![g1]);
        assert(table_insert(Seq::<GroupModel>::empty(), d2, e2) == seq![g2]);
        if lex_lt(d2, d1) {
            assert(table_insert(t1, d2, e2) =~= seq![g2, g1]);
            assert(table_insert(t2, d1, e1) =~= seq![g2, g1]);
        } else if lex_lt(d1, d2) {
            assert(table_insert(t1, d2, e2) =~= seq![g1, g2]);
            assert(table_insert(t2, d1, e1) =~= seq![g1, g2]);
        } else {
            lemma_sorted_insert_commutes(Seq::<EntryModel>::empty(), e1, e2);
            assert(sorted_insert(Seq::<EntryModel>::empty(), e1) == seq![e1]);
            assert(sorted_insert(Seq::<EntryModel>::empty(), e2) == seq![e2]);
            assert(table_insert(t1, d2, e2) =~= seq![
                GroupModel { digest: d2, members: sorted_insert(seq![e1], e2) },
            ]);
            assert(table_insert(t2, d1, e1) =~= seq![
                GroupModel { digest: d1, members: sorted_insert(seq![e2], e1) },
            ]);
        }
    } else {
        let h = t.first();
        let hd = h.digest;
        let tail = t.drop_first();
        lemma_lex_trichotomy(d1, hd);
        lemma_lex_trichotomy(d2, hd);
        if lex_lt(d1, hd) && lex_lt(d2, hd) {
            assert(t1 == seq![g1] + t);
            assert(t2 == seq![g2] + t);
            assert((seq![g1] + t).first() == g1 && (seq![g2] + t).first() == g2);
            assert((seq![g1] + t).drop_first() =~= t);
            assert((seq![g2] + t).drop_first() =~= t);
            if lex_lt(d2, d1) {
                assert(table_insert(t1, d2, e2) == seq![g2] + t1);
                assert(table_insert(t2, d1, e1) == seq![g2] + table_insert(t, d1, e1));
            } else if lex_lt(d1, d2) {
                assert(table_insert(t1, d2, e2) == seq![g1] + table_insert(t, d2, e2));
                assert(table_insert(t2, d1, e1) == seq![g1] + t2);
            } else {
                let gm = GroupModel { digest: d1, members: sorted_insert(g1.members, e2) };
                let gm2 = GroupModel { digest: d2, members: sorted_insert(g2.members, e1) };
                lemma_sorted_insert_commutes(Seq::<EntryModel>::empty(), e1, e2);
                assert(sorted_insert(Seq::<EntryModel>::empty(), e1) == seq![e1]);
                assert(sorted_insert(Seq::<EntryModel>::empty(), e2) == seq![e2]);
                assert(table_insert(t1, d2, e2) == seq![gm] + t);
                assert(table_insert(t2, d1, e1) == seq![gm2] + t);
                assert(gm == gm2);
            }
        } else if lex_lt(d1, hd) && !lex_lt(d2, hd) {
            if lex_lt(d2, d1) {
                lemma_lex_transitive(d2, d1, hd);
            }
            assert(!lex_lt(d2, d1) && d1 != d2);
            assert(t1 == seq![g1] + t);
            assert((seq![g1] + t).first() == g1);
            assert((seq![g1] + t).drop_first() =~= t);
            assert(table_insert(t1, d2, e2) == seq![g1] + table_insert(t, d2, e2));
            assert(t2.first().digest == hd) by {
                if d2 == hd {
                    assert(t2 == seq![
                        GroupModel { digest: d2, members: sorted_insert(h.members, e2) },
                    ] + tail);
                } else {
                    assert(t2 == seq![h] + table_insert(tail, d2, e2));
                }
            }
            assert(table_insert(t2, d1, e1) == seq![g1] + t2);
        } else if !lex_lt(d1, hd) && lex_lt(d2, hd) {
            if lex_lt(d1, d2) {
                lemma_lex_transitive(d1, d2, hd);
            }
            assert(!lex_lt(d1, d2) && d1 != d2);
            assert(t2 == seq![g2] + t);
            assert((seq![g2] + t).first() == g2);
            assert((seq![g2] + t).drop_first() =~= t);
            assert(table_insert(t2, d1, e1) == seq![g2] + table_insert(t, d1, e1));
            assert(t1.first().digest == hd) by {
                if d1 == hd {
                    assert(t1 == seq![
                        GroupModel { digest: d1, members: sorted_insert(h.members, e1) },
                    ] + tail);
                } else {
                    assert(t1 == seq![h] + table_insert(tail, d1, e1));
                }
            }
            assert(table_insert(t1, d2, e2) == seq![g2] + t1);
        } else if d1 == hd && d2 == hd {
            lemma_sorted_insert_commutes(h.members, e1, e2);
            let m1 = GroupModel { digest: d1, members: sorted_insert(h.members, e1) };
            let m2 = GroupModel { digest: d2, members: sorted_insert(h.members, e2) };
            assert(t1 == seq![m1] + tail);
            assert(t2 == seq![m2] + tail);
            assert((seq![m1] + tail).first() == m1 && (seq![m2] + tail).first() == m2);
            assert((seq![m1] + tail).drop_first() =~= tail);
            assert((seq![m2] + tail).drop_first() =~= tail);
            assert(table_insert(t1, d2, e2) == seq![
                GroupModel { digest: d2, members: sorted_insert(m1.members, e2) },
            ] + tail);
            assert(table_insert(t2, d1, e1) == seq![
                GroupModel { digest: d1, members: sorted_insert(m2.members, e1) },
            ] + tail);
        } else if d1 == hd {
            assert(lex_lt(hd, d2));
            let m1 = GroupModel { digest: d1, members: sorted_insert(h.members, e1) };
            assert(t1 == seq![m1] + tail);
            assert((seq![m1] + tail).first() == m1);
            assert((seq![m1] + tail).drop_first() =~= tail);
            assert(table_insert(t1, d2, e2) == seq![m1] + table_insert(tail, d2, e2));
            assert(t2 == seq![h] + table_insert(tail, d2, e2));
            assert((seq![h] + table_insert(tail, d2, e2)).first() == h);
            assert((seq![h] + table_insert(tail, d2, e2)).drop_first() =~= table_insert(
                tail,
                d2,
                e2,
            ));
            assert(table_insert(t2, d1, e1) == seq![m1] + table_insert(tail, d2, e2));
        } else if d2 == hd {
            assert(lex_lt(hd, d1));
            let m2 = GroupModel { digest: d2, members: sorted_insert(h.members, e2) };
            assert(t2 == seq![m2] + tail);
            assert((seq![m2] + tail).first() == m2);
            assert((seq![m2] + tail).drop_first() =~= tail);
            assert(table_insert(t2, d1, e1) == seq![m2] + table_insert(tail, d1, e1));
            assert(t1 == seq![h] + table_insert(tail, d1, e1));
            assert((seq![h] + table_insert(tail, d1, e1)).first() == h);
            assert((seq![h] + table_insert(tail, d1, e1)).drop_first() =~= table_insert(
                tail,
                d1,
                e1,
            ));
            assert(table_insert(t1, d2, e2) == seq![m2] + table_insert(tail, d1, e1));
        } else {
            assert(lex_lt(hd, d1) && lex_lt(hd, d2));
            lemma_table_insert_commutes(tail, d1, e1, d2, e2);
            assert(t1 == seq![h] + table_insert(tail, d1, e1));
            assert(t2 == seq![h] + table_insert(tail, d2, e2));
            assert(t1.first() == h && t2.first() == h);
            assert(t1.drop_first() =~= table_insert(tail, d1, e1));
            assert(t2.drop_first() =~= table_insert(tail, d2, e2));
            assert(table_insert(t1, d2, e2) == seq![h] + table_insert(
                table_insert(tail, d1, e1),
                d2,
                e2,
            ));
            assert(table_insert(t2, d1, e1) == seq![h] + table_insert(
                table_insert(tail, d2, e2),
                d1,
                e1,
            ));
        }
    }
}

/// One step of the fold.
pub open spec fn build_step(t: Seq<GroupModel>, o: OutcomeModel) -> Seq<GroupModel> {
    match o {
        OutcomeModel::Hashed(h) => table_insert(t, h.digest, outcome_entry(h)),
        OutcomeModel::Unreadable => t,
    }
}

/// The fold unrolls one outcome at a time.
pub proof fn lemma_build_push(s: Seq<OutcomeModel>, o: OutcomeModel)
    ensures
        build_outcomes(s.push(o)) == build_step(build_outcomes(s), o),
{
    assert(s.push(o).drop_last() =~= s);
    assert(s.push(o).last() == o);
}

/// Two fold steps commute.
pub proof fn lemma_build_step_commutes(t: Seq<GroupModel>, o1: OutcomeModel, o2: OutcomeModel)
    ensures
        build_step(build_step(t, o1), o2) == build_step(build_step(t, o2), o1),
{
    match o1 {
        OutcomeModel::Hashed(h1) => match o2 {
            OutcomeModel::Hashed(h2) => {
                lemma_table_insert_commutes(
                    t,
                    h1.digest,
                    outcome_entry(h1),
                    h2.digest,
                    outcome_entry(h2),
                );
            },
            OutcomeModel::Unreadable => {},
        },
        OutcomeModel::Unreadable => {},
    }
}

/// Moving one outcome to the end of the run leaves the folded table unchanged.
pub proof fn lemma_build_move_to_end(s: Seq<OutcomeModel>, k: int)
    requires
        0 <= k < s.len(),
    ensures
        build_outcomes(s) == build_outcomes(s.remove(k).push(s[k])),
    decreases s.len(),
{
    if k == s.len() - 1 {
        assert(s.remove(k).push(s[k]) =~= s);
    } else {
        let x = s.last();
        let dl = s.drop_last();
        assert(s =~= dl.push(x));
        lemma_build_push(dl, x);
        lemma_build_move_to_end(dl, k);
        lemma_build_push(dl.remove(k), dl[k]);
        lemma_build_step_commutes(build_outcomes(dl.remove(k)), dl[k], x);
        lemma_build_push(dl.remove(k), x);
        assert(s.remove(k) =~= dl.remove(k).push(x));
        lemma_build_push(s.remove(k), s[k]);
        assert(build_outcomes(s) == build_step(
            build_step(build_outcomes(dl.remove(k)), x),
            s[k],
        ));
    }
}

/// Determinism law: two runs that hash the same files — the same multiset of
/// per-file outcomes, in whatever order the traversal yielded them — fold to the
/// same table, and hence to byte-identical report output.
pub proof fn lemma_build_order_independent(s1: Seq<OutcomeModel>, s2: Seq<OutcomeModel>)
    requires
        s1.to_multiset() == s2.to_multiset(),
    ensures
        build_outcomes(s1) == build_outcomes(s2),
    decreases s1.len(),
{
    s1.to_multiset_ensures();
    s2.to_multiset_ensures();
    if s1.len() == 0 {
        assert(s2 =~= Seq::<OutcomeModel>::empty());
    } else {
        let x = s1.last();
        assert(s1[s1.len() - 1] == x);
        assert(s1.contains(x));
        assert(s1.to_multiset().count(x) > 0);
        assert(s2.to_multiset().count(x) > 0);
        assert(s2.contains(x));
        let k = choose|k: int| 0 <= k < s2.len() && s2[k] == x;
        lemma_build_move_to_end(s2, k);
        let s2r = s2.remove(k);
        let dl = s1.drop_last();
        assert(s1 =~= dl.push(x));
        dl.to_multiset_ensures();
        assert(dl.push(x).to_multiset() =~= dl.to_multiset().insert(x));
        assert(dl.to_multiset() =~= s1.to_multiset().remove(x)) by {
            broadcast use vstd::multiset::group_multiset_axioms;

        }
        assert(s2r.to_multiset() =~= s2.to_multiset().remove(x));
        lemma_build_order_independent(dl, s2r);
        lemma_build_push(dl, x);
        lemma_build_push(s2r, x);
        assert(build_outcomes(s1) == build_outcomes(dl.push(x)));
    }
}

} // verus!

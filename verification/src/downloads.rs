//! The progress of a batch of downloads.

use crate::text::{same, to_chars};
use vstd::prelude::*;

verus! {

/// What happens to a pack.
#[derive(Clone, Debug)]
pub enum PackEvent {
    Started { pack_id: String },
    Progress { pack_id: String, downloaded_bytes: u64 },
    Finished { pack_id: String },
}

/// A [`PackEvent`] as a value.
pub enum PackEventView {
    Started(Seq<char>),
    Progress(Seq<char>, u64),
    Finished(Seq<char>),
}

impl View for PackEvent {
    type V = PackEventView;

    open spec fn view(&self) -> PackEventView {
        match self {
            PackEvent::Started { pack_id } => PackEventView::Started(pack_id@),
            PackEvent::Progress { pack_id, downloaded_bytes } => PackEventView::Progress(
                pack_id@,
                *downloaded_bytes,
            ),
            PackEvent::Finished { pack_id } => PackEventView::Finished(pack_id@),
        }
    }
}

/// How far a batch of downloads is.
#[derive(Clone, Debug)]
pub struct DownloadBatch {
    active: Vec<Vec<char>>,
    progress: Vec<(Vec<char>, u64)>,
    completed: usize,
    completed_bytes: u64,
    total: usize,
}

/// A [`DownloadBatch`] as a value: the packs that are being downloaded, the
/// bytes of those that have any, and what is complete.
#[verifier::ext_equal]
pub struct BatchView {
    pub active: Set<Seq<char>>,
    pub progress: Map<Seq<char>, u64>,
    pub completed: nat,
    pub completed_bytes: int,
    pub total: nat,
}

spec fn pack_set(v: Seq<Vec<char>>) -> Set<Seq<char>>
    decreases v.len(),
{
    if v.len() == 0 {
        Set::empty()
    } else {
        pack_set(v.drop_last()).insert(v.last()@)
    }
}

spec fn pack_map(v: Seq<(Vec<char>, u64)>) -> Map<Seq<char>, u64>
    decreases v.len(),
{
    if v.len() == 0 {
        Map::empty()
    } else {
        pack_map(v.drop_last()).insert(v.last().0@, v.last().1)
    }
}

spec fn distinct(v: Seq<Vec<char>>) -> bool {
    forall|i: int, j: int| 0 <= i < j < v.len() ==> (#[trigger] v[i])@ != (#[trigger] v[j])@
}

spec fn distinct_keys(v: Seq<(Vec<char>, u64)>) -> bool {
    forall|i: int, j: int| 0 <= i < j < v.len() ==> (#[trigger] v[i]).0@ != (#[trigger] v[j]).0@
}

spec fn bytes_in(v: Seq<(Vec<char>, u64)>) -> int
    decreases v.len(),
{
    if v.len() == 0 {
        0
    } else {
        bytes_in(v.drop_last()) + v.last().1
    }
}

/// The bytes of all packs of a map.
pub open spec fn map_total(m: Map<Seq<char>, u64>) -> int
    decreases m.dom().len(),
    when m.dom().finite()
{
    if m.dom().len() == 0 {
        0
    } else {
        let id = m.dom().choose();
        m[id] + map_total(m.remove(id))
    }
}

impl BatchView {
    /// The bytes that are there so far, of packs that are finished or not.
    pub open spec fn staged(self) -> int {
        self.completed_bytes + map_total(self.progress)
    }

    /// The batch after something happened.
    pub open spec fn after(self, event: PackEventView) -> BatchView {
        match event {
            PackEventView::Started(id) => BatchView { active: self.active.insert(id), ..self },
            PackEventView::Progress(id, bytes) => BatchView {
                active: self.active.insert(id),
                progress: self.progress.insert(id, bytes),
                ..self
            },
            PackEventView::Finished(id) => BatchView {
                active: self.active.remove(id),
                progress: self.progress.remove(id),
                completed: self.completed + 1,
                completed_bytes: self.completed_bytes + self.bytes_of(id),
                ..self
            },
        }
    }

    /// The bytes of a pack so far.
    pub open spec fn bytes_of(self, id: Seq<char>) -> int {
        if self.progress.dom().contains(id) {
            self.progress[id] as int
        } else {
            0
        }
    }
}

proof fn lemma_pack_set(v: Seq<Vec<char>>)
    ensures
        pack_set(v).finite(),
        forall|t: Seq<char>| #[trigger]
            pack_set(v).contains(t) <==> exists|i: int| 0 <= i < v.len() && (#[trigger] v[i])@ == t,
        distinct(v) ==> pack_set(v).len() == v.len(),
    decreases v.len(),
{
    if v.len() > 0 {
        let w = v.drop_last();
        lemma_pack_set(w);
        assert forall|t: Seq<char>| #[trigger] pack_set(v).contains(t) implies exists|i: int|
            0 <= i < v.len() && (#[trigger] v[i])@ == t by {
            if pack_set(w).contains(t) {
                let i = choose|i: int| 0 <= i < w.len() && (#[trigger] w[i])@ == t;
                assert(v[i]@ == t);
            } else {
                assert(v[v.len() - 1]@ == t);
            }
        }
        assert forall|t: Seq<char>| (exists|i: int| 0 <= i < v.len() && (#[trigger] v[i])@ == t)
            implies #[trigger] pack_set(v).contains(t) by {
            let i = choose|i: int| 0 <= i < v.len() && (#[trigger] v[i])@ == t;
            if i < w.len() {
                assert(w[i]@ == t);
            }
        }
        if distinct(v) {
            assert(distinct(w)) by {
                assert forall|i: int, j: int| 0 <= i < j < w.len() implies (#[trigger] w[i])@ != (
                #[trigger] w[j])@ by {
                    assert(v[i]@ != v[j]@);
                }
            }
            assert(!pack_set(w).contains(v.last()@)) by {
                if pack_set(w).contains(v.last()@) {
                    let i = choose|i: int| 0 <= i < w.len() && (#[trigger] w[i])@ == v.last()@;
                    assert(v[i]@ != v[v.len() - 1]@);
                }
            }
        }
    }
}

proof fn lemma_pack_map(v: Seq<(Vec<char>, u64)>)
    requires
        distinct_keys(v),
    ensures
        forall|t: Seq<char>| #[trigger]
            pack_map(v).dom().contains(t) <==> exists|i: int|
                0 <= i < v.len() && (#[trigger] v[i]).0@ == t,
        forall|i: int| 0 <= i < v.len() ==> pack_map(v)[(#[trigger] v[i]).0@] == v[i].1,
    decreases v.len(),
{
    if v.len() > 0 {
        let w = v.drop_last();
        assert forall|i: int, j: int| 0 <= i < j < w.len() implies (#[trigger] w[i]).0@ != (
        #[trigger] w[j]).0@ by {
            assert(v[i].0@ != v[j].0@);
        }
        lemma_pack_map(w);
        assert forall|t: Seq<char>| #[trigger] pack_map(v).dom().contains(t) implies exists|i: int|
            0 <= i < v.len() && (#[trigger] v[i]).0@ == t by {
            if pack_map(w).dom().contains(t) {
                let i = choose|i: int| 0 <= i < w.len() && (#[trigger] w[i]).0@ == t;
                assert(v[i].0@ == t);
            } else {
                assert(v[v.len() - 1].0@ == t);
            }
        }
        assert forall|t: Seq<char>| (exists|i: int| 0 <= i < v.len() && (#[trigger] v[i]).0@ == t)
            implies #[trigger] pack_map(v).dom().contains(t) by {
            let i = choose|i: int| 0 <= i < v.len() && (#[trigger] v[i]).0@ == t;
            if i < w.len() {
                assert(w[i].0@ == t);
            }
        }
        assert forall|i: int| 0 <= i < v.len() implies pack_map(v)[(#[trigger] v[i]).0@]
            == v[i].1 by {
            if i < w.len() {
                assert(w[i] == v[i]);
                assert(v[i].0@ != v[v.len() - 1].0@);
            }
        }
    }
}

proof fn lemma_map_total(m: Map<Seq<char>, u64>, id: Seq<char>)
    requires
        m.dom().finite(),
        m.dom().contains(id),
    ensures
        map_total(m) == m[id] + map_total(m.remove(id)),
    decreases m.dom().len(),
{
    let c = m.dom().choose();
    assert(m.dom().len() > 0);
    assert(m.dom().contains(c));
    if c != id {
        assert(m.remove(c).dom() =~= m.dom().remove(c));
        assert(m.remove(id).dom() =~= m.dom().remove(id));
        lemma_map_total(m.remove(c), id);
        lemma_map_total(m.remove(id), c);
        assert(m.remove(c).remove(id) =~= m.remove(id).remove(c));
    }
}

proof fn lemma_bytes_in(v: Seq<(Vec<char>, u64)>)
    requires
        distinct_keys(v),
    ensures
        pack_map(v).dom().finite(),
        map_total(pack_map(v)) == bytes_in(v),
    decreases v.len(),
{
    if v.len() > 0 {
        let w = v.drop_last();
        assert forall|i: int, j: int| 0 <= i < j < w.len() implies (#[trigger] w[i]).0@ != (
        #[trigger] w[j]).0@ by {
            assert(v[i].0@ != v[j].0@);
        }
        lemma_bytes_in(w);
        lemma_pack_map(w);
        let id = v.last().0@;
        if pack_map(w).dom().contains(id) {
            let i = choose|i: int| 0 <= i < w.len() && (#[trigger] w[i]).0@ == id;
            assert(v[i].0@ != v[v.len() - 1].0@);
        }
        lemma_map_total(pack_map(v), id);
        assert(pack_map(v).remove(id) =~= pack_map(w));
    }
}

/// Where a pack stands in a list; its length where it does not.
fn place(v: &[Vec<char>], id: &[char]) -> (r: usize)
    ensures
        r <= v@.len(),
        r < v@.len() ==> v@[r as int]@ == id@,
        r == v@.len() ==> forall|i: int| 0 <= i < v@.len() ==> (#[trigger] v@[i])@ != id@,
{
    let mut i: usize = 0;
    while i < v.len()
        invariant
            i <= v@.len(),
            forall|j: int| 0 <= j < i ==> (#[trigger] v@[j])@ != id@,
        decreases v@.len() - i,
    {
        if same(v[i].as_slice(), id) {
            return i;
        }
        i = i + 1;
    }
    i
}

fn place_of_key(v: &[(Vec<char>, u64)], id: &[char]) -> (r: usize)
    ensures
        r <= v@.len(),
        r < v@.len() ==> v@[r as int].0@ == id@,
        r == v@.len() ==> forall|i: int| 0 <= i < v@.len() ==> (#[trigger] v@[i]).0@ != id@,
{
    let mut i: usize = 0;
    while i < v.len()
        invariant
            i <= v@.len(),
            forall|j: int| 0 <= j < i ==> (#[trigger] v@[j]).0@ != id@,
        decreases v@.len() - i,
    {
        if same(v[i].0.as_slice(), id) {
            return i;
        }
        i = i + 1;
    }
    i
}

impl DownloadBatch {
    /// What the batch holds.
    pub closed spec fn view(self) -> BatchView {
        BatchView {
            active: pack_set(self.active@),
            progress: pack_map(self.progress@),
            completed: self.completed as nat,
            completed_bytes: self.completed_bytes as int,
            total: self.total as nat,
        }
    }

    /// Whether each pack is listed once.
    pub closed spec fn wf(self) -> bool {
        distinct(self.active@) && distinct_keys(self.progress@)
    }

    /// A batch of `total` packs, of which none has started.
    pub fn new(total: usize) -> (r: DownloadBatch)
        ensures
            r.wf(),
            r@ == (BatchView {
                active: Set::empty(),
                progress: Map::empty(),
                completed: 0,
                completed_bytes: 0,
                total: total as nat,
            }),
    {
        DownloadBatch {
            active: Vec::new(),
            progress: Vec::new(),
            completed: 0,
            completed_bytes: 0,
            total,
        }
    }

    fn activate(&mut self, id: Vec<char>)
        requires
            old(self).wf(),
        ensures
            final(self).wf(),
            final(self)@ == (BatchView { active: old(self)@.active.insert(id@), ..old(self)@ }),
            final(self).progress == old(self).progress,
            final(self).completed == old(self).completed,
            final(self).completed_bytes == old(self).completed_bytes,
            final(self).total == old(self).total,
    {
        let k = place(self.active.as_slice(), id.as_slice());
        proof {
            lemma_pack_set(self.active@);
        }
        if k == self.active.len() {
            let ghost before = self.active@;
            self.active.push(id);
            proof {
                assert(self.active@.drop_last() =~= before);
                assert forall|i: int, j: int| 0 <= i < j < self.active@.len() implies (
                #[trigger] self.active@[i])@ != (#[trigger] self.active@[j])@ by {
                    if j < before.len() {
                        assert(before[i]@ != before[j]@);
                    } else {
                        assert(before[i]@ != id@);
                    }
                }
            }
        } else {
            assert(pack_set(self.active@).contains(id@));
            assert(pack_set(self.active@).insert(id@) =~= pack_set(self.active@));
        }
    }

    fn set_bytes(&mut self, id: Vec<char>, bytes: u64)
        requires
            old(self).wf(),
        ensures
            final(self).wf(),
            final(self)@ == (BatchView {
                progress: old(self)@.progress.insert(id@, bytes),
                ..old(self)@
            }),
    {
        let k = place_of_key(self.progress.as_slice(), id.as_slice());
        let ghost before = self.progress@;
        proof {
            lemma_pack_map(before);
        }
        if k == self.progress.len() {
            self.progress.push((id, bytes));
            proof {
                assert(self.progress@.drop_last() =~= before);
                assert forall|i: int, j: int| 0 <= i < j < self.progress@.len() implies (
                #[trigger] self.progress@[i]).0@ != (#[trigger] self.progress@[j]).0@ by {
                    if j < before.len() {
                        assert(before[i].0@ != before[j].0@);
                    } else {
                        assert(before[i].0@ != id@);
                    }
                }
            }
        } else {
            let ghost was = before[k as int].0@;
            self.progress.set(k, (id, bytes));
            proof {
                let now = self.progress@;
                assert(now =~= before.update(k as int, (id, bytes)));
                assert forall|i: int, j: int| 0 <= i < j < now.len() implies (#[trigger] now[i]).0@
                    != (#[trigger] now[j]).0@ by {
                    assert(before[i].0@ != before[j].0@);
                }
                lemma_pack_map(now);
                assert(pack_map(now) =~= pack_map(before).insert(id@, bytes)) by {
                    assert forall|t: Seq<char>| #[trigger] pack_map(now).dom().contains(t)
                        <==> pack_map(before).insert(id@, bytes).dom().contains(t) by {
                        if pack_map(now).dom().contains(t) {
                            let i = choose|i: int| 0 <= i < now.len() && (#[trigger] now[i]).0@
                                == t;
                            assert(before[i].0@ == t);
                        }
                        if pack_map(before).dom().contains(t) {
                            let i = choose|i: int|
                                0 <= i < before.len() && (#[trigger] before[i]).0@ == t;
                            assert(now[i].0@ == t);
                        }
                        assert(now[k as int].0@ == id@);
                    }
                    assert forall|t: Seq<char>| pack_map(now).dom().contains(t) implies pack_map(
                        now,
                    )[t] == #[trigger] pack_map(before).insert(id@, bytes)[t] by {
                        let i = choose|i: int| 0 <= i < now.len() && (#[trigger] now[i]).0@ == t;
                        assert(pack_map(now)[now[i].0@] == now[i].1);
                        if i != k {
                            assert(pack_map(before)[before[i].0@] == before[i].1);
                            if i < k {
                                assert(before[i].0@ != before[k as int].0@);
                            } else {
                                assert(before[k as int].0@ != before[i].0@);
                            }
                        }
                    }
                }
            }
        }
    }

    fn deactivate(&mut self, id: &[char])
        requires
            old(self).wf(),
        ensures
            final(self).wf(),
            final(self)@ == (BatchView { active: old(self)@.active.remove(id@), ..old(self)@ }),
    {
        let k = place(self.active.as_slice(), id);
        let ghost before = self.active@;
        proof {
            lemma_pack_set(before);
        }
        if k < self.active.len() {
            let _ = self.active.remove(k);
            proof {
                let now = self.active@;
                assert(now =~= before.remove(k as int));
                assert forall|i: int, j: int| 0 <= i < j < now.len() implies (#[trigger] now[i])@
                    != (#[trigger] now[j])@ by {
                    let x = if i < k {
                        i
                    } else {
                        i + 1
                    };
                    let y = if j < k {
                        j
                    } else {
                        j + 1
                    };
                    assert(before[x]@ != before[y]@);
                }
                lemma_pack_set(now);
                assert(pack_set(now) =~= pack_set(before).remove(id@)) by {
                    assert forall|t: Seq<char>| #[trigger] pack_set(now).contains(t)
                        <==> pack_set(before).remove(id@).contains(t) by {
                        if pack_set(now).contains(t) {
                            let i = choose|i: int| 0 <= i < now.len() && (#[trigger] now[i])@ == t;
                            let x = if i < k {
                                i
                            } else {
                                i + 1
                            };
                            assert(before[x]@ == t);
                            if x < k {
                                assert(before[x]@ != before[k as int]@);
                            } else {
                                assert(before[k as int]@ != before[x]@);
                            }
                        }
                        if pack_set(before).remove(id@).contains(t) {
                            let x = choose|x: int|
                                0 <= x < before.len() && (#[trigger] before[x])@ == t;
                            if x < k {
                                assert(now[x]@ == t);
                            } else {
                                assert(x != k);
                                assert(now[x - 1]@ == t);
                            }
                        }
                    }
                }
            }
        } else {
            assert(pack_set(before).remove(id@) =~= pack_set(before));
        }
    }

    fn take_bytes(&mut self, id: &[char]) -> (r: Option<u64>)
        requires
            old(self).wf(),
        ensures
            final(self).wf(),
            final(self)@ == (BatchView { progress: old(self)@.progress.remove(id@), ..old(self)@ }),
            match r {
                Some(b) => old(self)@.bytes_of(id@) == b,
                None => old(self)@.bytes_of(id@) == 0,
            },
    {
        let k = place_of_key(self.progress.as_slice(), id);
        let ghost before = self.progress@;
        proof {
            lemma_pack_map(before);
        }
        if k < self.progress.len() {
            let bytes: u64 = self.progress[k].1;
            let _ = self.progress.remove(k);
            proof {
                let now = self.progress@;
                assert(now =~= before.remove(k as int));
                assert(pack_map(before)[before[k as int].0@] == bytes);
                assert(pack_map(before).dom().contains(id@));
                assert forall|i: int, j: int| 0 <= i < j < now.len() implies (#[trigger] now[i]).0@
                    != (#[trigger] now[j]).0@ by {
                    let x = if i < k {
                        i
                    } else {
                        i + 1
                    };
                    let y = if j < k {
                        j
                    } else {
                        j + 1
                    };
                    assert(before[x].0@ != before[y].0@);
                }
                lemma_pack_map(now);
                let goal = pack_map(before).remove(id@);
                assert forall|t: Seq<char>| #[trigger] pack_map(now).dom().contains(t)
                    <==> goal.dom().contains(t) by {
                    if pack_map(now).dom().contains(t) {
                        let i = choose|i: int| 0 <= i < now.len() && (#[trigger] now[i]).0@ == t;
                        let x = if i < k {
                            i
                        } else {
                            i + 1
                        };
                        assert(before[x].0@ == t);
                        if x < k {
                            assert(before[x].0@ != before[k as int].0@);
                        } else {
                            assert(before[k as int].0@ != before[x].0@);
                        }
                    }
                    if goal.dom().contains(t) {
                        assert(pack_map(before).dom().contains(t));
                        let x = choose|x: int|
                            0 <= x < before.len() && (#[trigger] before[x]).0@ == t;
                        if x < k {
                            assert(now[x].0@ == t);
                        } else {
                            assert(x != k);
                            assert(now[x - 1].0@ == t);
                        }
                    }
                }
                assert forall|t: Seq<char>| pack_map(now).dom().contains(t) implies pack_map(now)[t]
                    == #[trigger] goal[t] by {
                    let i = choose|i: int| 0 <= i < now.len() && (#[trigger] now[i]).0@ == t;
                    let x = if i < k {
                        i
                    } else {
                        i + 1
                    };
                    assert(pack_map(now)[now[i].0@] == now[i].1);
                    assert(pack_map(before)[before[x].0@] == before[x].1);
                    assert(goal.dom().contains(t));
                }
                assert(pack_map(now) =~= goal);
            }
            Some(bytes)
        } else {
            assert(!pack_map(before).dom().contains(id@));
            assert(pack_map(before).remove(id@) =~= pack_map(before));
            None
        }
    }

    /// Notes what happened to a pack.
    pub fn handle(&mut self, event: PackEvent)
        requires
            old(self).wf(),
            event@ matches PackEventView::Finished(id) ==> old(self)@.completed < usize::MAX
                && old(self)@.completed_bytes + old(self)@.bytes_of(id) <= u64::MAX,
        ensures
            final(self).wf(),
            final(self)@ == old(self)@.after(event@),
    {
        let ghost before = self@;
        match event {
            PackEvent::Started { pack_id } => {
                self.activate(to_chars(pack_id.as_str()));
            },
            PackEvent::Progress { pack_id, downloaded_bytes } => {
                let id = to_chars(pack_id.as_str());
                self.activate(id);
                let again = to_chars(pack_id.as_str());
                self.set_bytes(again, downloaded_bytes);
            },
            PackEvent::Finished { pack_id } => {
                let id = to_chars(pack_id.as_str());
                self.deactivate(id.as_slice());
                if let Some(bytes) = self.take_bytes(id.as_slice()) {
                    self.completed_bytes = self.completed_bytes + bytes;
                }
                self.completed = self.completed + 1;
            },
        }
        assert(self@ =~= before.after(event@));
    }

    /// The bytes that are there so far, of packs that are finished or not.
    pub fn staged_bytes(&self) -> (r: u128)
        requires
            self.wf(),
        ensures
            r == self@.staged(),
    {
        let ghost v = self.progress@;
        let mut sum: u128 = self.completed_bytes as u128;
        let mut i: usize = 0;
        assert(v.take(0) =~= Seq::<(Vec<char>, u64)>::empty());
        while i < self.progress.len()
            invariant
                i <= v.len(),
                v == self.progress@,
                sum == self.completed_bytes + bytes_in(v.take(i as int)),
                sum <= (i + 1) * 0xffff_ffff_ffff_ffff,
            decreases v.len() - i,
        {
            assert(v.take(i + 1).drop_last() =~= v.take(i as int));
            sum = sum + self.progress[i].1 as u128;
            i = i + 1;
        }
        proof {
            assert(v.take(i as int) =~= v);
            lemma_bytes_in(v);
        }
        sum
    }

    /// How many packs are finished.
    pub fn finished(&self) -> (r: usize)
        ensures
            r == self@.completed,
    {
        self.completed
    }

    /// How many packs there are.
    pub fn packs(&self) -> (r: usize)
        ensures
            r == self@.total,
    {
        self.total
    }

    /// How many packs are being downloaded.
    pub fn active(&self) -> (r: usize)
        requires
            self.wf(),
        ensures
            r == self@.active.len(),
    {
        proof {
            lemma_pack_set(self.active@);
        }
        self.active.len()
    }
}

/// What a report says of a pack.
#[derive(Clone, Copy, Debug, PartialEq, Eq, Structural)]
pub enum PackStatus {
    Downloaded,
    AlreadyComplete,
    Skipped,
    Failed,
}

/// What a report says of a pack: the first of its marks that is set.
pub fn pack_status(succeeded: bool, already_complete: bool, skipped: bool) -> (r: PackStatus)
    ensures
        r == if succeeded {
            PackStatus::Downloaded
        } else if already_complete {
            PackStatus::AlreadyComplete
        } else if skipped {
            PackStatus::Skipped
        } else {
            PackStatus::Failed
        },
{
    if succeeded {
        PackStatus::Downloaded
    } else if already_complete {
        PackStatus::AlreadyComplete
    } else if skipped {
        PackStatus::Skipped
    } else {
        PackStatus::Failed
    }
}

/// Finishing a pack keeps the bytes that are there, and a pack that finished is
/// no longer active.
pub proof fn law_finishing_keeps_bytes(batch: BatchView, id: Seq<char>)
    requires
        batch.progress.dom().finite(),
    ensures
        ({
            let after = batch.after(PackEventView::Finished(id));
            &&& after.staged() == batch.staged()
            &&& !after.active.contains(id)
            &&& after.completed == batch.completed + 1
        }),
{
    if batch.progress.dom().contains(id) {
        lemma_map_total(batch.progress, id);
    } else {
        assert(batch.progress.remove(id) =~= batch.progress);
    }
}

} // verus!
